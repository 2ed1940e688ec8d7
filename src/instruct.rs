//! Instructions of a script, what executing them does, and the law of
//! repetition.
use vstd::prelude::*;

verus! {

broadcast use {vstd::std_specs::vec::axiom_vec_decreases_to_view, vstd::seq::axiom_seq_index_decreases};

/// One parsed step of a script.
#[derive(Debug, PartialEq, Eq)]
pub enum Instruct {
    /// Move the pointer to the absolute position `(x, y)`.
    Move(i32, i32),
    /// Click the named button the given number of times.
    Mouse(String, usize),
    /// Pause for the given number of milliseconds.
    Sleep(usize),
    /// Run the body, in order, the given number of times.
    Loop(usize, Vec<Instruct>),
}

/// The mathematical value of an [`Instruct`].
pub enum InstructView {
    Move(i32, i32),
    Mouse(Seq<char>, usize),
    Sleep(usize),
    Loop(usize, Seq<InstructView>),
}

pub open spec fn instruct_view(i: Instruct) -> InstructView
    decreases i,
{
    match i {
        Instruct::Move(x, y) => InstructView::Move(x, y),
        Instruct::Mouse(b, c) => InstructView::Mouse(b@, c),
        Instruct::Sleep(d) => InstructView::Sleep(d),
        Instruct::Loop(n, body) => InstructView::Loop(n, list_view(body@)),
    }
}

pub open spec fn list_view(s: Seq<Instruct>) -> Seq<InstructView>
    decreases s,
{
    if s.len() == 0 {
        Seq::empty()
    } else {
        list_view(s.drop_last()).push(instruct_view(s.last()))
    }
}

impl View for Instruct {
    type V = InstructView;

    open spec fn view(&self) -> InstructView {
        instruct_view(*self)
    }
}

pub proof fn lemma_list_view(s: Seq<Instruct>)
    ensures
        list_view(s).len() == s.len(),
        forall|k: int| 0 <= k < s.len() ==> #[trigger] list_view(s)[k] == s[k]@,
    decreases s.len(),
{
    if s.len() > 0 {
        lemma_list_view(s.drop_last());
    }
}

/// One effect handed to the action sink.
#[derive(Debug, PartialEq, Eq)]
pub enum Action {
    /// Move the pointer to `(x, y)`.
    MovePointer(i32, i32),
    /// Click the named button the given number of times.
    Click(String, usize),
    /// Pause for the given number of milliseconds.
    Pause(usize),
}

pub enum ActionView {
    MovePointer(i32, i32),
    Click(Seq<char>, usize),
    Pause(usize),
}

impl View for Action {
    type V = ActionView;

    open spec fn view(&self) -> ActionView {
        match *self {
            Action::MovePointer(x, y) => ActionView::MovePointer(x, y),
            Action::Click(b, c) => ActionView::Click(b@, c),
            Action::Pause(d) => ActionView::Pause(d),
        }
    }
}

pub open spec fn action_views(s: Seq<Action>) -> Seq<ActionView> {
    s.map_values(|a: Action| a@)
}

/// `s` repeated `n` times.
pub open spec fn repeat(s: Seq<ActionView>, n: nat) -> Seq<ActionView>
    decreases n,
{
    if n == 0 {
        Seq::empty()
    } else {
        repeat(s, (n - 1) as nat) + s
    }
}

/// The effects of executing one instruction, in order.
pub open spec fn effects(i: InstructView) -> Seq<ActionView>
    decreases i,
{
    match i {
        InstructView::Move(x, y) => seq![ActionView::MovePointer(x, y)],
        InstructView::Mouse(b, c) => seq![ActionView::Click(b, c)],
        InstructView::Sleep(d) => seq![ActionView::Pause(d)],
        InstructView::Loop(n, body) => repeat(effects_of(body), n as nat),
    }
}

/// The effects of executing a sequence of instructions, in order.
pub open spec fn effects_of(s: Seq<InstructView>) -> Seq<ActionView>
    decreases s,
{
    if s.len() == 0 {
        Seq::empty()
    } else {
        effects_of(s.drop_last()) + effects(s.last())
    }
}

impl Instruct {
    /// Performs the instruction by appending its effects, in order, to `sink`.
    pub fn execute(&self, sink: &mut Vec<Action>)
        ensures
            action_views(final(sink)@) == action_views(old(sink)@) + effects(self@),
        decreases self,
    {
        let ghost start = action_views(sink@);
        match self {
            Instruct::Loop(count, body) => {
                let ghost e = effects_of(list_view(body@));
                proof {
                    lemma_list_view(body@);
                }
                let mut k: usize = 0;
                while k < *count
                    invariant
                        k <= *count,
                        *self == Instruct::Loop(*count, *body),
                        e == effects_of(list_view(body@)),
                        list_view(body@).len() == body.len(),
                        forall|m: int| 0 <= m < body.len() ==> #[trigger] list_view(body@)[m] == body@[m]@,
                        action_views(sink@) == start + repeat(e, k as nat),
                    decreases *count - k,
                {
                    let ghost round = action_views(sink@);
                    let mut j: usize = 0;
                    while j < body.len()
                        invariant
                            j <= body.len(),
                            *self == Instruct::Loop(*count, *body),
                        e == effects_of(list_view(body@)),
                            list_view(body@).len() == body.len(),
                            forall|m: int| 0 <= m < body.len() ==> #[trigger] list_view(body@)[m] == body@[m]@,
                            action_views(sink@) == round + effects_of(list_view(body@).take(j as int)),
                        decreases body.len() - j,
                    {
                        proof {
                            assert(decreases_to!(*self => (*self)->Loop_1));
                            assert(decreases_to!(*body => body@));
                            assert(decreases_to!(body@ => body@[j as int]));
                        }
                        body[j].execute(sink);
                        assert(list_view(body@).take(j + 1).drop_last() =~= list_view(body@).take(j as int));
                        assert(action_views(sink@) =~= round + effects_of(list_view(body@).take(j + 1)));
                        j = j + 1;
                    }
                    assert(list_view(body@).take(j as int) =~= list_view(body@));
                    assert(action_views(sink@) =~= start + repeat(e, (k + 1) as nat));
                    k = k + 1;
                }
            },
            Instruct::Move(x, y) => {
                sink.push(Action::MovePointer(*x, *y));
                assert(action_views(sink@) =~= start + effects(self@));
            },
            Instruct::Mouse(button, count) => {
                sink.push(Action::Click(button.clone(), *count));
                assert(action_views(sink@) =~= start + effects(self@));
            },
            Instruct::Sleep(duration) => {
                sink.push(Action::Pause(*duration));
                assert(action_views(sink@) =~= start + effects(self@));
            },
        }
    }
}

proof fn lemma_repeat(s: Seq<ActionView>, n: nat)
    ensures
        repeat(s, n).len() == n * s.len(),
        forall|k: int|
            0 <= k < n ==> #[trigger] repeat(s, n).subrange(k * s.len(), (k + 1) * s.len()) == s,
    decreases n,
{
    if n > 0 {
        let m = (n - 1) as nat;
        lemma_repeat(s, m);
        let l = s.len() as int;
        assert(m * l + l == n * l) by (nonlinear_arith)
            requires
                m + 1 == n,
        ;
        assert forall|k: int| 0 <= k < n implies #[trigger] repeat(s, n).subrange(
            k * l,
            (k + 1) * l,
        ) == s by {
            assert(k * l + l == (k + 1) * l) by (nonlinear_arith);
            if k < m {
                assert((k + 1) * l <= m * l) by (nonlinear_arith)
                    requires
                        k + 1 <= m,
                        l >= 0,
                ;
                assert(0 <= k * l) by (nonlinear_arith)
                    requires
                        k >= 0,
                        l >= 0,
                ;
                assert(repeat(s, n).subrange(k * l, (k + 1) * l) =~= repeat(s, m).subrange(
                    k * l,
                    (k + 1) * l,
                ));
            } else {
                assert(repeat(s, n).subrange(k * l, (k + 1) * l) =~= s);
            }
        }
        assert(repeat(s, n).len() == m * l + l);
    } else {
        assert(n * s.len() == 0) by (nonlinear_arith)
            requires
                n == 0,
        ;
    }
}

/// Executing `Loop(n, body)` traverses the effects of `body` exactly `n`
/// times, one whole traversal after another, in order; when `n` is zero or
/// the body is empty it has no effect at all.
pub proof fn lemma_loop_repeats_body(n: usize, body: Seq<InstructView>)
    ensures
        effects(InstructView::Loop(n, body)).len() == n * effects_of(body).len(),
        forall|k: int|
            0 <= k < n ==> #[trigger] effects(InstructView::Loop(n, body)).subrange(
                k * effects_of(body).len(),
                (k + 1) * effects_of(body).len(),
            ) == effects_of(body),
        n == 0 || body.len() == 0 ==> effects(InstructView::Loop(n, body)) == Seq::<
            ActionView,
        >::empty(),
{
    lemma_repeat(effects_of(body), n as nat);
    if n == 0 || body.len() == 0 {
        assert(effects(InstructView::Loop(n, body)) =~= Seq::<ActionView>::empty());
    }
}

} // verus!
