use vstd::prelude::*;
use crate::scene::Transaction;

verus! {

/// Where the scheduler stands. `Init(0)` is the uninitialized state;
/// `Init(n)` with `n` systems is initialized and about to enter the scene;
/// `Run(i)` runs system `i`, and `Run(n)` asks the scene whether to go on;
/// `Exit` leaves the scene; `Dispose(i)` disposes system `i`, and
/// `Dispose(n)` is the final, disposed state.
#[derive(Clone, Copy, Debug, PartialEq, Eq, Structural)]
pub enum Phase {
    Init(usize),
    Run(usize),
    Exit,
    Dispose(usize),
}

/// What the host must do next.
#[derive(Clone, Copy, Debug, PartialEq, Eq, Structural)]
pub enum Action {
    /// Set up system `i`'s data and call its `init`.
    InitSystem(usize),
    /// Call the scene's `on_enter`.
    EnterScene,
    /// Fetch system `i`'s data, call its `run`, release the data.
    RunSystem(usize),
    /// Call the scene's `update` and report its answer.
    UpdateScene,
    /// Call the scene's `on_exit`.
    ExitScene,
    /// Call system `i`'s `dispose`.
    DisposeSystem(usize),
    /// Nothing is left to do.
    Finished,
}

/// The action pending in phase `p` with `n` systems.
pub open spec fn action_of(p: Phase, n: nat) -> Action {
    match p {
        Phase::Init(i) => if i < n { Action::InitSystem(i) } else { Action::EnterScene },
        Phase::Run(i) => if i < n { Action::RunSystem(i) } else { Action::UpdateScene },
        Phase::Exit => Action::ExitScene,
        Phase::Dispose(i) => if i < n { Action::DisposeSystem(i) } else { Action::Finished },
    }
}

/// The phase after the pending action of `p` was carried out; `answer` is
/// what the scene's update returned, and matters only after an update.
pub open spec fn next_phase(p: Phase, n: nat, answer: Transaction) -> Phase {
    match p {
        Phase::Init(i) => if i < n { Phase::Init((i + 1) as usize) } else { Phase::Run(0) },
        Phase::Run(i) => if i < n {
            Phase::Run((i + 1) as usize)
        } else if answer == Transaction::Quit {
            Phase::Exit
        } else {
            Phase::Run(0)
        },
        Phase::Exit => Phase::Dispose(0),
        Phase::Dispose(i) => if i < n { Phase::Dispose((i + 1) as usize) } else { Phase::Dispose(i) },
    }
}

/// The scheduler: an ordered list of systems and the current phase.
pub struct Engine<S> {
    systems: Vec<S>,
    phase: Phase,
}

impl<S> Default for Engine<S> {
    /// Same as `new`.
    fn default() -> (r: Self)
        ensures
            r.wf(),
            r.systems() == Seq::<S>::empty(),
            r.phase() == Phase::Init(0),
    {
        Engine::new()
    }
}

impl<S> Engine<S> {
    pub closed spec fn systems(&self) -> Seq<S> {
        self.systems@
    }

    pub closed spec fn phase(&self) -> Phase {
        self.phase
    }

    pub open spec fn wf(&self) -> bool {
        match self.phase() {
            Phase::Init(i) => i <= self.systems().len(),
            Phase::Run(i) => i <= self.systems().len(),
            Phase::Exit => true,
            Phase::Dispose(i) => i <= self.systems().len(),
        }
    }

    /// No systems, uninitialized.
    pub fn new() -> (r: Self)
        ensures
            r.wf(),
            r.systems() == Seq::<S>::empty(),
            r.phase() == Phase::Init(0),
    {
        Engine { systems: Vec::new(), phase: Phase::Init(0) }
    }

    /// Appends `system`; systems run in the order they were added.
    pub fn with_system(self, system: S) -> (r: Self)
        requires
            self.phase() == Phase::Init(0),
        ensures
            r.wf(),
            r.systems() == self.systems().push(system),
            r.phase() == Phase::Init(0),
    {
        let mut e = self;
        e.systems.push(system);
        e
    }

    /// The number of systems.
    pub fn len(&self) -> (r: usize)
        ensures
            r == self.systems().len(),
    {
        self.systems.len()
    }

    /// The current phase.
    pub fn current_phase(&self) -> (r: Phase)
        ensures
            r == self.phase(),
    {
        self.phase
    }

    /// System `i`, for the host to call.
    pub fn system_mut(&mut self, i: usize) -> (r: &mut S)
        requires
            i < old(self).systems().len(),
        ensures
            *r == old(self).systems()[i as int],
            final(self).systems() == old(self).systems().update(i as int, *final(r)),
            final(self).phase() == old(self).phase(),
    {
        &mut self.systems[i]
    }

    /// What the host must do next.
    pub fn next_action(&self) -> (r: Action)
        requires
            self.wf(),
        ensures
            r == action_of(self.phase(), self.systems().len()),
    {
        let n = self.systems.len();
        match self.phase {
            Phase::Init(i) => if i < n { Action::InitSystem(i) } else { Action::EnterScene },
            Phase::Run(i) => if i < n { Action::RunSystem(i) } else { Action::UpdateScene },
            Phase::Exit => Action::ExitScene,
            Phase::Dispose(i) => if i < n { Action::DisposeSystem(i) } else { Action::Finished },
        }
    }

    /// Records that the pending action was carried out; `answer` is the
    /// scene's reply when that action was an update.
    pub fn complete(&mut self, answer: Transaction)
        requires
            old(self).wf(),
        ensures
            final(self).wf(),
            final(self).systems() == old(self).systems(),
            final(self).phase() == next_phase(old(self).phase(), old(self).systems().len(), answer),
    {
        let n = self.systems.len();
        self.phase = match self.phase {
            Phase::Init(i) => if i < n { Phase::Init(i + 1) } else { Phase::Run(0) },
            Phase::Run(i) => if i < n {
                Phase::Run(i + 1)
            } else {
                match answer {
                    Transaction::Quit => Phase::Exit,
                    Transaction::Continue => Phase::Run(0),
                }
            },
            Phase::Exit => Phase::Dispose(0),
            Phase::Dispose(i) => if i < n { Phase::Dispose(i + 1) } else { Phase::Dispose(i) },
        };
    }
}

/// The first `k` actions the scheduler asks for when started in phase `p`
/// with `n` systems, the scene's updates answering `answers` in turn.
pub open spec fn drive(p: Phase, n: nat, answers: Seq<Transaction>, k: nat) -> Seq<Action>
    decreases k,
{
    if k == 0 {
        Seq::empty()
    } else if action_of(p, n) == Action::UpdateScene && answers.len() > 0 {
        seq![Action::UpdateScene] + drive(next_phase(p, n, answers[0]), n, answers.drop_first(), (k - 1) as nat)
    } else {
        seq![action_of(p, n)] + drive(next_phase(p, n, Transaction::Continue), n, answers, (k - 1) as nat)
    }
}

/// `init` of systems `i..n`, in order.
pub open spec fn inits(i: nat, n: nat) -> Seq<Action> {
    Seq::new((n - i) as nat, |j: int| Action::InitSystem((i + j) as usize))
}

/// `run` of systems `i..n`, in order.
pub open spec fn runs(i: nat, n: nat) -> Seq<Action> {
    Seq::new((n - i) as nat, |j: int| Action::RunSystem((i + j) as usize))
}

/// `dispose` of systems `i..n`, in order.
pub open spec fn disposes(i: nat, n: nat) -> Seq<Action> {
    Seq::new((n - i) as nat, |j: int| Action::DisposeSystem((i + j) as usize))
}

/// `r` ticks: each runs every system in order, then updates the scene.
pub open spec fn ticks(n: nat, r: nat) -> Seq<Action>
    decreases r,
{
    if r == 0 {
        Seq::empty()
    } else {
        runs(0, n).push(Action::UpdateScene) + ticks(n, (r - 1) as nat)
    }
}

/// The whole life of a scheduler with `n` systems whose scene quits at its
/// update number `q` (counting from zero).
pub open spec fn lifecycle(n: nat, q: nat) -> Seq<Action> {
    inits(0, n).push(Action::EnterScene) + ticks(n, q + 1) + seq![Action::ExitScene] + disposes(0, n).push(
        Action::Finished,
    )
}

proof fn lemma_drive_init(i: nat, n: nat, answers: Seq<Transaction>, m: nat)
    requires
        i <= n <= usize::MAX,
    ensures
        drive(Phase::Init(i as usize), n, answers, ((n - i) + 1 + m) as nat) == inits(i, n).push(Action::EnterScene)
            + drive(Phase::Run(0), n, answers, m),
    decreases n - i,
{
    let k = ((n - i) + 1 + m) as nat;
    if i < n {
        lemma_drive_init(i + 1, n, answers, m);
        assert(next_phase(Phase::Init(i as usize), n, Transaction::Continue) == Phase::Init((i + 1) as usize));
        assert(inits(i, n).push(Action::EnterScene) =~= seq![Action::InitSystem(i as usize)] + inits(i + 1, n).push(Action::EnterScene));
        assert(seq![Action::InitSystem(i as usize)] + (inits(i + 1, n).push(Action::EnterScene) + drive(Phase::Run(0), n, answers, m))
            =~= inits(i, n).push(Action::EnterScene) + drive(Phase::Run(0), n, answers, m));
    } else {
        assert(inits(i, n).push(Action::EnterScene) =~= seq![Action::EnterScene]);
    }
}

proof fn lemma_drive_run(i: nat, n: nat, answers: Seq<Transaction>, m: nat)
    requires
        i <= n <= usize::MAX,
        answers.len() > 0,
    ensures
        drive(Phase::Run(i as usize), n, answers, ((n - i) + 1 + m) as nat) == runs(i, n).push(Action::UpdateScene)
            + drive(
            if answers[0] == Transaction::Quit { Phase::Exit } else { Phase::Run(0) },
            n,
            answers.drop_first(),
            m,
        ),
    decreases n - i,
{
    let rest = drive(
        if answers[0] == Transaction::Quit { Phase::Exit } else { Phase::Run(0) },
        n,
        answers.drop_first(),
        m,
    );
    if i < n {
        lemma_drive_run(i + 1, n, answers, m);
        assert(runs(i, n).push(Action::UpdateScene) =~= seq![Action::RunSystem(i as usize)] + runs(i + 1, n).push(Action::UpdateScene));
        assert(seq![Action::RunSystem(i as usize)] + (runs(i + 1, n).push(Action::UpdateScene) + rest)
            =~= runs(i, n).push(Action::UpdateScene) + rest);
    } else {
        assert(runs(i, n).push(Action::UpdateScene) =~= seq![Action::UpdateScene]);
    }
}

proof fn lemma_drive_dispose(i: nat, n: nat, answers: Seq<Transaction>)
    requires
        i <= n <= usize::MAX,
    ensures
        drive(Phase::Dispose(i as usize), n, answers, ((n - i) + 1) as nat) == disposes(i, n).push(Action::Finished),
    decreases n - i,
{
    if i < n {
        lemma_drive_dispose(i + 1, n, answers);
        assert(disposes(i, n).push(Action::Finished) =~= seq![Action::DisposeSystem(i as usize)] + disposes(i + 1, n).push(Action::Finished));
    } else {
        assert(drive(Phase::Dispose(i as usize), n, answers, 0) =~= Seq::<Action>::empty());
        assert(disposes(i, n).push(Action::Finished) =~= seq![Action::Finished]);
    }
}

proof fn lemma_drive_ticks(q: nat, n: nat, answers: Seq<Transaction>, m: nat)
    requires
        n <= usize::MAX,
        answers.len() > q,
        forall|j: int| 0 <= j < q ==> answers[j] == Transaction::Continue,
        answers[q as int] == Transaction::Quit,
    ensures
        drive(Phase::Run(0), n, answers, ((q + 1) * (n + 1) + m) as nat) == ticks(n, q + 1) + drive(
            Phase::Exit,
            n,
            answers.subrange(q as int + 1, answers.len() as int),
            m,
        ),
    decreases q,
{
    let tail = drive(Phase::Exit, n, answers.subrange(q as int + 1, answers.len() as int), m);
    assert((q + 1) * (n + 1) + m == (n + 1) + (q * (n + 1) + m)) by (nonlinear_arith);
    assert(q * (n + 1) >= 0) by (nonlinear_arith);
    if q == 0 {
        lemma_drive_run(0, n, answers, m);
        assert((q + 1) * (n + 1) + m == n + 1 + m) by (nonlinear_arith)
            requires q == 0;
        assert(answers.drop_first() =~= answers.subrange(1, answers.len() as int));
        assert(ticks(n, 0) =~= Seq::<Action>::empty());
        assert(ticks(n, 1) =~= runs(0, n).push(Action::UpdateScene));
    } else {
        let rest_answers = answers.drop_first();
        let k1 = (q * (n + 1) + m) as nat;
        lemma_drive_run(0, n, answers, k1);
        assert(answers[0] == Transaction::Continue);
        assert(((n - 0) + 1 + k1) as nat == ((q + 1) * (n + 1) + m) as nat);
        assert(drive(Phase::Run(0), n, answers, ((q + 1) * (n + 1) + m) as nat)
            == runs(0, n).push(Action::UpdateScene) + drive(Phase::Run(0), n, rest_answers, k1));
        assert forall|j: int| 0 <= j < q - 1 implies rest_answers[j] == Transaction::Continue by {
            assert(answers[j + 1] == Transaction::Continue);
        }
        lemma_drive_ticks((q - 1) as nat, n, rest_answers, m);
        assert((((q - 1) as nat + 1) * (n + 1) + m) as nat == k1);
        assert(rest_answers.subrange((q - 1) as nat as int + 1, rest_answers.len() as int) =~= answers.subrange(q as int + 1, answers.len() as int));
        assert(drive(Phase::Run(0), n, rest_answers, k1) == ticks(n, q) + tail);
        assert(ticks(n, q + 1) == runs(0, n).push(Action::UpdateScene) + ticks(n, q));
        assert(runs(0, n).push(Action::UpdateScene) + (ticks(n, q) + tail) =~= ticks(n, q + 1) + tail);
    }
}

/// With `n` systems and a scene whose updates answer "continue" until answer
/// number `q` says "quit", the scheduler asks for exactly this: `init` of
/// every system in registration order, entering the scene, `q + 1` ticks that
/// each run every system in registration order and then update the scene,
/// exiting the scene, `dispose` of every system in registration order, and
/// then nothing more.
pub proof fn lemma_lifecycle_order(n: nat, answers: Seq<Transaction>, q: nat)
    requires
        n <= usize::MAX,
        answers.len() > q,
        forall|j: int| 0 <= j < q ==> answers[j] == Transaction::Continue,
        answers[q as int] == Transaction::Quit,
    ensures
        drive(Phase::Init(0), n, answers, lifecycle(n, q).len()) == lifecycle(n, q),
{
    let after = answers.subrange(q as int + 1, answers.len() as int);
    let total_ticks = (q + 1) * (n + 1);
    assert(total_ticks >= 0) by (nonlinear_arith)
        requires q >= 0, n >= 0;
    let len = lifecycle(n, q).len();
    lemma_ticks_len(n, q + 1);
    assert(len == (n + 1) + total_ticks + 1 + (n + 1));
    lemma_drive_init(0, n, answers, (total_ticks + 1 + (n + 1)) as nat);
    lemma_drive_ticks(q, n, answers, (1 + (n + 1)) as nat);
    lemma_drive_dispose(0, n, after);
    assert(drive(Phase::Exit, n, after, (1 + (n + 1)) as nat) =~= seq![Action::ExitScene] + disposes(0, n).push(
        Action::Finished,
    ));
    assert(inits(0, n).push(Action::EnterScene) + (ticks(n, q + 1) + (seq![Action::ExitScene] + disposes(0, n).push(
        Action::Finished,
    ))) =~= lifecycle(n, q));
}

proof fn lemma_ticks_len(n: nat, r: nat)
    ensures
        ticks(n, r).len() == r * (n + 1),
    decreases r,
{
    if r > 0 {
        lemma_ticks_len(n, (r - 1) as nat);
        assert(runs(0, n).len() == n);
        assert(ticks(n, r) == runs(0, n).push(Action::UpdateScene) + ticks(n, (r - 1) as nat));
        assert(r * (n + 1) == (n + 1) + (r - 1) * (n + 1)) by (nonlinear_arith)
            requires r > 0;
    } else {
        assert(r * (n + 1) == 0) by (nonlinear_arith)
            requires r == 0;
    }
}

} // verus!
