//! Batching of snippets and the bookkeeping of a bounded number of
//! translation calls whose results come back in any order.

use vstd::prelude::*;
use vstd::arithmetic::div_mod::lemma_fundamental_div_mod_converse_div;
use crate::options::{config_fault, ConfigError, RequestOptions};

verus! {

/// The number of batches that `n` items make: `n / size`, rounded up.
pub open spec fn batch_count(n: nat, size: nat) -> nat {
    if size == 0 {
        0
    } else {
        ((n + size - 1) / (size as int)) as nat
    }
}

/// The position just behind the last item of batch `b`.
pub open spec fn batch_end(b: int, size: nat, n: nat) -> int {
    if (b + 1) * size < n {
        (b + 1) * size
    } else {
        n as int
    }
}

/// Batch `b`: the items from position `b * size` on, `size` of them or as
/// many as are left.
pub open spec fn batch_of<T>(items: Seq<T>, size: nat, b: int) -> Seq<T> {
    items.subrange(b * size, batch_end(b, size, items.len()))
}

/// The items cut into consecutive batches of `size`, the last one possibly
/// shorter.
pub open spec fn partition_spec<T>(items: Seq<T>, size: nat) -> Seq<Seq<T>> {
    Seq::new(batch_count(items.len(), size), |b: int| batch_of(items, size, b))
}

/// A count of batches `k` that leaves no item out and has no empty last batch
/// is the rounded-up quotient.
proof fn lemma_batch_count_unique(n: nat, size: nat, k: nat)
    requires
        size > 0,
        n <= k * size,
        k > 0 ==> (k - 1) * size < n,
    ensures
        batch_count(n, size) == k,
{
    if k == 0 {
        assert(n == 0) by (nonlinear_arith)
            requires
                n <= k * size,
                k == 0,
        ;
        assert((size - 1) / (size as int) == 0) by (nonlinear_arith)
            requires
                size > 0,
        ;
    } else {
        let r = n + size - 1 - k * size;
        assert(0 <= r < size) by (nonlinear_arith)
            requires
                r == n + size - 1 - k * size,
                n <= k * size,
                (k - 1) * size < n,
        ;
        lemma_fundamental_div_mod_converse_div(n + size - 1, size as int, k as int, r);
    }
}

/// Every batch lies inside the items, and only the last may be short.
pub proof fn lemma_batch_bounds(n: nat, size: nat, b: int)
    requires
        size > 0,
        0 <= b < batch_count(n, size),
    ensures
        0 <= b * size < n,
        b * size < batch_end(b, size, n) <= n,
        batch_end(b, size, n) - b * size <= size,
        b + 1 < batch_count(n, size) ==> batch_end(b, size, n) - b * size == size,
        b + 1 == batch_count(n, size) ==> batch_end(b, size, n) == n,
{
    let k = batch_count(n, size) as int;
    let x = n + size - 1;
    vstd::arithmetic::div_mod::lemma_fundamental_div_mod(x, size as int);
    let r = x % (size as int);
    assert(0 <= r < size) by {
        vstd::arithmetic::div_mod::lemma_mod_pos_bound(x, size as int);
    }
    assert(x == size * k + r);
    assert(b * size <= (k - 1) * size) by (nonlinear_arith)
        requires
            b <= k - 1,
            size > 0,
    ;
    assert(0 <= b * size) by (nonlinear_arith)
        requires
            0 <= b,
            size > 0,
    ;
    assert((k - 1) * size == size * k - size) by (nonlinear_arith);
    assert((b + 1) * size == b * size + size) by (nonlinear_arith);
    if b + 1 < k {
        assert((b + 1) * size <= (k - 1) * size) by (nonlinear_arith)
            requires
                b + 1 <= k - 1,
                size > 0,
        ;
    } else {
        assert((b + 1) * size == size * k) by (nonlinear_arith)
            requires
                b + 1 == k,
        ;
    }
}

/// The batches, put end to end in their order, are the items again, and there
/// are as many batches as the rounded-up quotient says.
pub proof fn lemma_partition_reconstructs<T>(items: Seq<T>, size: nat)
    requires
        size > 0,
    ensures
        partition_spec(items, size).len() == batch_count(items.len(), size),
        partition_spec(items, size).flatten() =~= items,
{
    let batches = partition_spec(items, size);
    lemma_flatten_prefix(items, size, batches.len() as int);
    assert(batches.take(batches.len() as int) =~= batches);
    if batches.len() > 0 {
        lemma_batch_bounds(items.len(), size, batches.len() - 1);
    } else {
        assert(items.len() == 0) by {
            if items.len() > 0 {
                lemma_batch_count_positive(items.len(), size);
            }
        }
    }
}

/// Where there is an item there is a batch.
proof fn lemma_batch_count_positive(n: nat, size: nat)
    requires
        size > 0,
        n > 0,
    ensures
        batch_count(n, size) > 0,
{
    let x = n + size - 1;
    vstd::arithmetic::div_mod::lemma_fundamental_div_mod(x, size as int);
    vstd::arithmetic::div_mod::lemma_mod_pos_bound(x, size as int);
    let q = x / (size as int);
    if q <= 0 {
        assert(size * q <= 0) by (nonlinear_arith)
            requires
                q <= 0,
                size > 0,
        ;
    }
}

/// The first `k` batches, put end to end, are the items up to the end of
/// batch `k - 1`.
proof fn lemma_flatten_prefix<T>(items: Seq<T>, size: nat, k: int)
    requires
        size > 0,
        0 <= k <= batch_count(items.len(), size),
    ensures
        partition_spec(items, size).take(k).flatten() =~= items.take(
            if k == 0 {
                0
            } else {
                batch_end(k - 1, size, items.len())
            },
        ),
    decreases k,
{
    let batches = partition_spec(items, size);
    if k == 0 {
        assert(batches.take(0) =~= Seq::<Seq<T>>::empty());
    } else {
        lemma_flatten_prefix(items, size, k - 1);
        lemma_batch_bounds(items.len(), size, k - 1);
        if k - 1 > 0 {
            lemma_batch_bounds(items.len(), size, k - 2);
        }
        let before = batches.take(k - 1);
        assert(batches.take(k) =~= before.push(batches[k - 1]));
        before.lemma_flatten_push(batches[k - 1]);
        assert((k - 1) * size == if k - 1 == 0 {
            0
        } else {
            batch_end(k - 2, size, items.len())
        }) by {
            if k - 1 > 0 {
                assert((k - 2 + 1) * size == (k - 1) * size) by (nonlinear_arith);
            } else {
                assert((k - 1) * size == 0) by (nonlinear_arith)
                    requires
                        k - 1 == 0,
                ;
            }
        }
    }
}

/// Cuts the snippets into consecutive batches of `batch_size`, the last one
/// possibly shorter. A batch size of zero is refused.
pub fn partition(snippets: &Vec<String>, batch_size: usize) -> (cut: Result<
    Vec<Vec<String>>,
    ConfigError,
>)
    ensures
        batch_size == 0 <==> cut == Err::<Vec<Vec<String>>, ConfigError>(
            ConfigError::ZeroBatchSize,
        ),
        batch_size > 0 ==> cut is Ok && cut->Ok_0.deep_view() == partition_spec(
            snippets.deep_view(),
            batch_size as nat,
        ),
{
    if batch_size == 0 {
        return Err(ConfigError::ZeroBatchSize);
    }
    let n = snippets.len();
    let ghost items = snippets.deep_view();
    let ghost size = batch_size as nat;
    let mut batches: Vec<Vec<String>> = Vec::new();
    let mut start: usize = 0;
    assert(batches.len() * size == 0) by (nonlinear_arith)
        requires
            batches.len() == 0,
    ;
    while start < n
        invariant
            batch_size > 0,
            size == batch_size as nat,
            n == snippets.len(),
            items == snippets.deep_view(),
            start <= n,
            start == if batches.len() * size < n {
                batches.len() * size
            } else {
                n as int
            },
            batches.len() > 0 ==> (batches.len() - 1) * size < n,
            forall|b: int|
                0 <= b < batches.len() ==> #[trigger] batches[b].deep_view() == batch_of(
                    items,
                    size,
                    b,
                ),
        decreases n - start,
    {
        let end = if n - start > batch_size {
            start + batch_size
        } else {
            n
        };
        let mut batch: Vec<String> = Vec::new();
        let mut i = start;
        while i < end
            invariant
                start <= i <= end <= n,
                n == snippets.len(),
                batch.len() == i - start,
                forall|j: int| 0 <= j < batch.len() ==> #[trigger] batch[j]@ == snippets[start + j]@,
            decreases end - i,
        {
            batch.push(snippets[i].clone());
            i += 1;
        }
        proof {
            let b = batches.len() as int;
            assert((b + 1) * size == b * size + size) by (nonlinear_arith);
            assert(start == b * size);
            assert(end == batch_end(b, size, n as nat));
            assert(batch.deep_view() =~= batch_of(items, size, b));
        }
        batches.push(batch);
        start = end;
    }
    proof {
        lemma_batch_count_unique(n as nat, size, batches.len() as nat);
        assert(batches.deep_view() =~= partition_spec(items, size));
    }
    Ok(batches)
}


/// Why a run of translation calls was given up.
#[derive(Debug)]
pub enum TranslationError {
    /// The call for this batch failed; the text is what the call reported.
    CallFailed { batch: usize, message: String },
    /// The call for this batch answered with another number of snippets than
    /// it was given.
    LengthMismatch { batch: usize, expected: usize, returned: usize },
}

/// A `TranslationError` as a mathematical value.
pub enum TranslationErrorView {
    CallFailed { batch: nat, message: Seq<char> },
    LengthMismatch { batch: nat, expected: nat, returned: nat },
}

impl View for TranslationError {
    type V = TranslationErrorView;

    open spec fn view(&self) -> TranslationErrorView {
        match self {
            TranslationError::CallFailed { batch, message } => TranslationErrorView::CallFailed {
                batch: *batch as nat,
                message: message@,
            },
            TranslationError::LengthMismatch {
                batch,
                expected,
                returned,
            } => TranslationErrorView::LengthMismatch {
                batch: *batch as nat,
                expected: *expected as nat,
                returned: *returned as nat,
            },
        }
    }
}

impl TranslationError {
    /// The batch whose call went wrong.
    pub fn batch(&self) -> (batch: usize)
        ensures
            batch == match self@ {
                TranslationErrorView::CallFailed { batch, .. } => batch,
                TranslationErrorView::LengthMismatch { batch, .. } => batch,
            },
    {
        match self {
            TranslationError::CallFailed { batch, .. } => *batch,
            TranslationError::LengthMismatch { batch, .. } => *batch,
        }
    }

    /// A copy of the error.
    pub fn duplicate(&self) -> (copy: TranslationError)
        ensures
            copy@ == self@,
    {
        match self {
            TranslationError::CallFailed { batch, message } => TranslationError::CallFailed {
                batch: *batch,
                message: message.clone(),
            },
            TranslationError::LengthMismatch {
                batch,
                expected,
                returned,
            } => TranslationError::LengthMismatch {
                batch: *batch,
                expected: *expected,
                returned: *returned,
            },
        }
    }
}

/// What is known of one batch, as a mathematical value.
pub enum SlotView {
    /// Its call has not been started.
    Pending,
    /// Its call is running.
    InFlight,
    /// Its call came back with these translations.
    Done(Seq<Seq<char>>),
    /// Its call went wrong.
    Failed,
}

/// What is known of one batch.
enum Slot {
    Pending,
    InFlight,
    Done(Vec<String>),
    Failed,
}

impl View for Slot {
    type V = SlotView;

    closed spec fn view(&self) -> SlotView {
        match self {
            Slot::Pending => SlotView::Pending,
            Slot::InFlight => SlotView::InFlight,
            Slot::Done(texts) => SlotView::Done(texts.deep_view()),
            Slot::Failed => SlotView::Failed,
        }
    }
}

/// The number of batches whose call is running.
pub open spec fn count_in_flight(slots: Seq<SlotView>) -> nat
    decreases slots.len(),
{
    if slots.len() == 0 {
        0
    } else {
        count_in_flight(slots.drop_last()) + if slots.last() is InFlight {
            1nat
        } else {
            0nat
        }
    }
}

/// What the one who runs the calls is to do next.
#[derive(Debug)]
pub enum Action {
    /// Start the translation call for this batch.
    Launch { batch: usize, snippets: Vec<String> },
    /// Nothing can be started now: wait for a running call to end.
    Wait,
    /// The run is over: either a call went wrong or every batch is
    /// translated.
    Stop,
}

/// An `Action` as a mathematical value.
pub enum ActionView {
    Launch { batch: nat, snippets: Seq<Seq<char>> },
    Wait,
    Stop,
}

impl View for Action {
    type V = ActionView;

    open spec fn view(&self) -> ActionView {
        match self {
            Action::Launch { batch, snippets } => ActionView::Launch {
                batch: *batch as nat,
                snippets: snippets.deep_view(),
            },
            Action::Wait => ActionView::Wait,
            Action::Stop => ActionView::Stop,
        }
    }
}

/// The state of a run as a mathematical value.
pub struct SchedulerView {
    /// The snippets to translate, in their order.
    pub input: Seq<Seq<char>>,
    /// The largest number of snippets in one call.
    pub batch_size: nat,
    /// The largest number of calls that may run at once.
    pub max_concurrency: nat,
    /// One slot for each batch, in the order of the batches.
    pub slots: Seq<SlotView>,
    /// The number of batches whose call has been started.
    pub launched: nat,
    /// The first fault that was reported, if any.
    pub failure: Option<TranslationErrorView>,
}

/// What a translation call reported, as a mathematical value.
pub open spec fn outcome_view(outcome: Result<Vec<String>, String>) -> Result<
    Seq<Seq<char>>,
    Seq<char>,
> {
    match outcome {
        Ok(texts) => Ok(texts.deep_view()),
        Err(message) => Err(message@),
    }
}

impl SchedulerView {
    /// The state before any call is started.
    pub open spec fn initial(input: Seq<Seq<char>>, batch_size: nat, max_concurrency: nat) -> Self {
        SchedulerView {
            input,
            batch_size,
            max_concurrency,
            slots: Seq::new(batch_count(input.len(), batch_size), |b: int| SlotView::Pending),
            launched: 0,
            failure: None,
        }
    }

    /// The snippets of batch `b`.
    pub open spec fn batch(self, b: int) -> Seq<Seq<char>> {
        batch_of(self.input, self.batch_size, b)
    }

    /// The number of calls that are running.
    pub open spec fn in_flight(self) -> nat {
        count_in_flight(self.slots)
    }

    /// What holds of every state that a run passes through.
    pub open spec fn wf(self) -> bool {
        &&& self.batch_size > 0
        &&& self.max_concurrency > 0
        &&& self.slots.len() == batch_count(self.input.len(), self.batch_size)
        &&& self.launched <= self.slots.len()
        &&& forall|b: int|
            0 <= b < self.slots.len() ==> (#[trigger] self.slots[b] is Pending <==> b
                >= self.launched)
        &&& self.in_flight() <= self.max_concurrency
        &&& forall|b: int|
            0 <= b < self.slots.len() ==> (#[trigger] self.slots[b] matches SlotView::Done(texts)
                ==> texts.len() == self.batch(b).len())
        &&& self.failure is None ==> forall|b: int|
            0 <= b < self.slots.len() ==> !(#[trigger] self.slots[b] is Failed)
    }

    /// A further call may be started: nothing went wrong so far, a batch is
    /// waiting, and the calls that run are fewer than the cap.
    pub open spec fn can_launch(self) -> bool {
        &&& self.failure is None
        &&& self.launched < self.slots.len()
        &&& self.in_flight() < self.max_concurrency
    }

    /// The state once the call for the next waiting batch has been started.
    pub open spec fn launch(self) -> Self {
        SchedulerView {
            slots: self.slots.update(self.launched as int, SlotView::InFlight),
            launched: self.launched + 1,
            ..self
        }
    }

    /// What is to be done in this state.
    pub open spec fn action(self) -> ActionView {
        if self.can_launch() {
            ActionView::Launch { batch: self.launched, snippets: self.batch(self.launched as int) }
        } else if self.failure is None && self.in_flight() > 0 {
            ActionView::Wait
        } else {
            ActionView::Stop
        }
    }

    /// The state after the action of this state has been handed out.
    pub open spec fn after_action(self) -> Self {
        if self.can_launch() {
            self.launch()
        } else {
            self
        }
    }

    /// A report on batch `b` is expected: its call is running.
    pub open spec fn accepts(self, b: int) -> bool {
        0 <= b < self.slots.len() && self.slots[b] is InFlight
    }

    /// What is wrong with a report on batch `b`, if anything.
    pub open spec fn fault_of(self, b: int, outcome: Result<Seq<Seq<char>>, Seq<char>>) -> Option<
        TranslationErrorView,
    > {
        match outcome {
            Err(message) => Some(TranslationErrorView::CallFailed { batch: b as nat, message }),
            Ok(texts) => if texts.len() != self.batch(b).len() {
                Some(
                    TranslationErrorView::LengthMismatch {
                        batch: b as nat,
                        expected: self.batch(b).len(),
                        returned: texts.len(),
                    },
                )
            } else {
                None
            },
        }
    }

    /// The state after the call for batch `b` has reported `outcome`. The
    /// first fault is the one that is kept.
    pub open spec fn complete(self, b: int, outcome: Result<Seq<Seq<char>>, Seq<char>>) -> Self {
        let fault = self.fault_of(b, outcome);
        SchedulerView {
            slots: self.slots.update(
                b,
                match fault {
                    None => SlotView::Done(outcome->Ok_0),
                    Some(_) => SlotView::Failed,
                },
            ),
            failure: if self.failure is None {
                fault
            } else {
                self.failure
            },
            ..self
        }
    }

    /// Every batch has its translations.
    pub open spec fn all_done(self) -> bool {
        forall|b: int| 0 <= b < self.slots.len() ==> #[trigger] self.slots[b] is Done
    }

    /// The translations that came back for batch `b`.
    pub open spec fn delivered(self, b: int) -> Seq<Seq<char>> {
        self.slots[b]->Done_0
    }

    /// The translations in the order of the input: the one at position `i` is
    /// what came back for the batch that held input `i`, at its place in that
    /// batch.
    pub open spec fn merged(self) -> Seq<Seq<char>> {
        Seq::new(
            self.input.len(),
            |i: int| self.delivered(i / (self.batch_size as int))[i % (self.batch_size as int)],
        )
    }

    /// How the run ended, or `None` while it goes on.
    pub open spec fn outcome(self) -> Option<Result<Seq<Seq<char>>, TranslationErrorView>> {
        match self.failure {
            Some(fault) => Some(Err(fault)),
            None => if self.all_done() {
                Some(Ok(self.merged()))
            } else {
                None
            },
        }
    }
}

/// Changing one slot changes the count of running calls by what that slot
/// adds or takes away.
pub proof fn lemma_count_update(slots: Seq<SlotView>, b: int, slot: SlotView)
    requires
        0 <= b < slots.len(),
    ensures
        count_in_flight(slots.update(b, slot)) + (if slots[b] is InFlight {
            1nat
        } else {
            0nat
        }) == count_in_flight(slots) + (if slot is InFlight {
            1nat
        } else {
            0nat
        }),
    decreases slots.len(),
{
    let changed = slots.update(b, slot);
    if b == slots.len() - 1 {
        assert(changed.drop_last() =~= slots.drop_last());
    } else {
        lemma_count_update(slots.drop_last(), b, slot);
        assert(changed.drop_last() =~= slots.drop_last().update(b, slot));
    }
}

/// Where no call is running, the count is zero, and the other way round.
pub proof fn lemma_count_zero(slots: Seq<SlotView>)
    ensures
        count_in_flight(slots) == 0 <==> forall|b: int|
            0 <= b < slots.len() ==> !(#[trigger] slots[b] is InFlight),
    decreases slots.len(),
{
    if slots.len() > 0 {
        lemma_count_zero(slots.drop_last());
        let front = slots.drop_last();
        assert(forall|b: int| 0 <= b < front.len() ==> front[b] == slots[b]);
        if count_in_flight(slots) == 0 {
            assert forall|b: int| 0 <= b < slots.len() implies !(#[trigger] slots[b] is InFlight) by {
                if b < front.len() {
                    assert(front[b] == slots[b]);
                }
            }
        }
        if forall|b: int| 0 <= b < slots.len() ==> !(#[trigger] slots[b] is InFlight) {
            assert forall|b: int| 0 <= b < front.len() implies !(#[trigger] front[b] is InFlight) by {
                assert(front[b] == slots[b]);
            }
        }
    }
}

/// The calls that run at once never outnumber the cap: it holds at the start,
/// and handing out an action or taking in a report keeps it.
pub proof fn lemma_concurrency_cap(
    state: SchedulerView,
    b: int,
    outcome: Result<Seq<Seq<char>>, Seq<char>>,
)
    requires
        state.wf(),
    ensures
        state.in_flight() <= state.max_concurrency,
        state.after_action().wf(),
        state.after_action().in_flight() <= state.max_concurrency,
        state.accepts(b) ==> state.complete(b, outcome).wf(),
        state.accepts(b) ==> state.complete(b, outcome).in_flight() + 1 == state.in_flight(),
{
    if state.can_launch() {
        lemma_count_update(state.slots, state.launched as int, SlotView::InFlight);
        let next = state.launch();
        assert forall|c: int| 0 <= c < next.slots.len() implies (#[trigger] next.slots[c] is Pending
            <==> c >= next.launched) by {
            if c != state.launched {
                assert(next.slots[c] == state.slots[c]);
            }
        }
        assert forall|c: int| 0 <= c < next.slots.len() implies (
        #[trigger] next.slots[c] matches SlotView::Done(texts) ==> texts.len() == next.batch(
            c,
        ).len()) by {
            if c != state.launched {
                assert(next.slots[c] == state.slots[c]);
            }
        }
        if next.failure is None {
            assert forall|c: int| 0 <= c < next.slots.len() implies !(
            #[trigger] next.slots[c] is Failed) by {
                if c != state.launched {
                    assert(next.slots[c] == state.slots[c]);
                }
            }
        }
    }
    if state.accepts(b) {
        let next = state.complete(b, outcome);
        lemma_count_update(state.slots, b, next.slots[b]);
        assert forall|c: int| 0 <= c < next.slots.len() implies (#[trigger] next.slots[c] is Pending
            <==> c >= next.launched) by {
            if c != b {
                assert(next.slots[c] == state.slots[c]);
            }
        }
        assert forall|c: int| 0 <= c < next.slots.len() implies (
        #[trigger] next.slots[c] matches SlotView::Done(texts) ==> texts.len() == next.batch(
            c,
        ).len()) by {
            if c != b {
                assert(next.slots[c] == state.slots[c]);
            }
        }
        if next.failure is None {
            assert forall|c: int| 0 <= c < next.slots.len() implies !(
            #[trigger] next.slots[c] is Failed) by {
                if c != b {
                    assert(next.slots[c] == state.slots[c]);
                }
            }
        }
    }
}

/// The state at the start is well formed and has no call running.
pub proof fn lemma_initial_wf(input: Seq<Seq<char>>, batch_size: nat, max_concurrency: nat)
    requires
        batch_size > 0,
        max_concurrency > 0,
    ensures
        SchedulerView::initial(input, batch_size, max_concurrency).wf(),
        SchedulerView::initial(input, batch_size, max_concurrency).in_flight() == 0,
{
    let state = SchedulerView::initial(input, batch_size, max_concurrency);
    lemma_count_zero(state.slots);
}

/// Reports that bring translations may come in either order: the state after
/// both is the same.
pub proof fn lemma_completions_commute(
    state: SchedulerView,
    a: int,
    first: Seq<Seq<char>>,
    b: int,
    second: Seq<Seq<char>>,
)
    requires
        state.accepts(a),
        state.accepts(b),
        a != b,
        state.fault_of(a, Ok(first)) is None,
        state.fault_of(b, Ok(second)) is None,
    ensures
        state.complete(a, Ok(first)).accepts(b),
        state.complete(b, Ok(second)).accepts(a),
        state.complete(a, Ok(first)).complete(b, Ok(second)) == state.complete(
            b,
            Ok(second),
        ).complete(a, Ok(first)),
{
    let one = state.complete(a, Ok(first)).complete(b, Ok(second));
    let other = state.complete(b, Ok(second)).complete(a, Ok(first));
    assert(one.slots =~= other.slots);
}

/// The state after the calls have reported translations, one report after
/// the other: each report names its batch and brings what came back for it.
pub open spec fn after_reports(
    state: SchedulerView,
    reports: Seq<(int, Seq<Seq<char>>)>,
) -> SchedulerView
    decreases reports.len(),
{
    if reports.len() == 0 {
        state
    } else {
        let before = after_reports(state, reports.drop_last());
        if before.accepts(reports.last().0) {
            before.complete(reports.last().0, Ok(reports.last().1))
        } else {
            before
        }
    }
}

/// Whatever the order in which the calls report, each batch ends up with
/// what its own call brought: where the reports are on different batches
/// whose calls run, and each brings as many translations as its batch has
/// snippets, the slot of each reported batch holds what was reported for it,
/// the other slots are as they were, and no fault has arisen.
pub proof fn lemma_reports_in_any_order(state: SchedulerView, reports: Seq<(int, Seq<Seq<char>>)>)
    requires
        state.failure is None,
        forall|k: int| 0 <= k < reports.len() ==> state.accepts((#[trigger] reports[k]).0),
        forall|k: int|
            0 <= k < reports.len() ==> (#[trigger] reports[k]).1.len() == state.batch(
                reports[k].0,
            ).len(),
        forall|j: int, k: int|
            0 <= j < k < reports.len() ==> (#[trigger] reports[j]).0 != (#[trigger] reports[k]).0,
    ensures
        after_reports(state, reports).failure is None,
        after_reports(state, reports).input == state.input,
        after_reports(state, reports).batch_size == state.batch_size,
        after_reports(state, reports).max_concurrency == state.max_concurrency,
        after_reports(state, reports).launched == state.launched,
        after_reports(state, reports).slots.len() == state.slots.len(),
        forall|k: int|
            0 <= k < reports.len() ==> after_reports(state, reports).slots[(
            #[trigger] reports[k]).0] == SlotView::Done(reports[k].1),
        forall|b: int|
            0 <= b < state.slots.len() && (forall|k: int|
                0 <= k < reports.len() ==> (#[trigger] reports[k]).0 != b) ==> after_reports(
                state,
                reports,
            ).slots[b] == state.slots[b],
    decreases reports.len(),
{
    if reports.len() > 0 {
        let front = reports.drop_last();
        let last = reports.last();
        assert forall|k: int| 0 <= k < front.len() implies state.accepts((#[trigger] front[k]).0)
            && front[k].1.len() == state.batch(front[k].0).len() by {
            assert(front[k] == reports[k]);
        }
        assert forall|j: int, k: int| 0 <= j < k < front.len() implies (#[trigger] front[j]).0 != (
        #[trigger] front[k]).0 by {
            assert(front[j] == reports[j] && front[k] == reports[k]);
        }
        lemma_reports_in_any_order(state, front);
        let before = after_reports(state, front);
        assert(before.slots[last.0] == state.slots[last.0]) by {
            assert forall|k: int| 0 <= k < front.len() implies (#[trigger] front[k]).0 != last.0 by {
                assert(front[k] == reports[k]);
                assert(reports[reports.len() - 1] == last);
            }
        }
        assert(state.accepts(reports[reports.len() - 1].0));
        assert(before.accepts(last.0));
        let after = after_reports(state, reports);
        assert(after == before.complete(last.0, Ok(last.1)));
        assert(before.batch(last.0) == state.batch(last.0));
        assert forall|k: int| 0 <= k < reports.len() implies after.slots[(#[trigger] reports[k]).0]
            == SlotView::Done(reports[k].1) by {
            if k < front.len() {
                assert(front[k] == reports[k]);
                assert(before.slots[front[k].0] == SlotView::Done(front[k].1));
                assert(reports[k].0 != reports[reports.len() - 1].0);
            }
        }
        assert forall|b: int|
            0 <= b < state.slots.len() && (forall|k: int|
                0 <= k < reports.len() ==> (#[trigger] reports[k]).0 != b) implies after.slots[b]
            == state.slots[b] by {
            assert(reports[reports.len() - 1].0 != b);
            assert forall|k: int| 0 <= k < front.len() implies (#[trigger] front[k]).0 != b by {
                assert(front[k] == reports[k]);
            }
        }
    }
}

/// Output `i` is the translation of input `i`: input `i` is the snippet at
/// place `i % batch_size` of batch `i / batch_size`, and the merged output
/// has at position `i` what came back for that batch at that place, whatever
/// the order in which the reports came.
pub proof fn lemma_merged_in_input_order(state: SchedulerView, i: int)
    requires
        state.wf(),
        state.all_done(),
        0 <= i < state.input.len(),
    ensures
        state.merged().len() == state.input.len(),
        0 <= i / (state.batch_size as int) < state.slots.len(),
        0 <= i % (state.batch_size as int) < state.batch(i / (state.batch_size as int)).len(),
        state.batch(i / (state.batch_size as int))[i % (state.batch_size as int)] == state.input[i],
        state.delivered(i / (state.batch_size as int)).len() == state.batch(
            i / (state.batch_size as int),
        ).len(),
        state.merged()[i] == state.delivered(i / (state.batch_size as int))[i % (
        state.batch_size as int)],
{
    let size = state.batch_size as int;
    let n = state.input.len();
    let b = i / size;
    let j = i % size;
    lemma_position_in_batch(n, state.batch_size, i);
    assert(state.slots[b] is Done);
}

/// Position `i` lies in batch `i / size`, at place `i % size`.
pub proof fn lemma_position_in_batch(n: nat, size: nat, i: int)
    requires
        size > 0,
        0 <= i < n,
    ensures
        0 <= i / (size as int) < batch_count(n, size),
        i == (i / (size as int)) * size + i % (size as int),
        0 <= i % (size as int) < batch_end(i / (size as int), size, n) - (i / (size as int)) * size,
{
    let d = size as int;
    let b = i / d;
    let j = i % d;
    vstd::arithmetic::div_mod::lemma_fundamental_div_mod(i, d);
    vstd::arithmetic::div_mod::lemma_mod_pos_bound(i, d);
    assert(d * b == b * size) by (nonlinear_arith)
        requires
            d == size,
    ;
    assert(0 <= b) by (nonlinear_arith)
        requires
            i == d * b + j,
            0 <= i,
            0 <= j < d,
    ;
    let k = batch_count(n, size) as int;
    let x = n + size - 1;
    vstd::arithmetic::div_mod::lemma_fundamental_div_mod(x, d);
    vstd::arithmetic::div_mod::lemma_mod_pos_bound(x, d);
    assert(b < k) by (nonlinear_arith)
        requires
            i == d * b + j,
            0 <= j < d,
            i < n,
            x == n + d - 1,
            x == d * k + x % d,
            0 <= x % d < d,
    ;
    assert((b + 1) * size == b * size + size) by (nonlinear_arith);
}


/// The bookkeeping of one run: which batches wait, which calls run, and what
/// came back.
///
/// The scheduler makes no call itself. It is asked for the next action, the
/// caller carries it out, and reports each call that ends with `complete`.
pub struct BatchScheduler {
    snippets: Vec<String>,
    batch_size: usize,
    max_concurrency: usize,
    slots: Vec<Slot>,
    launched: usize,
    next_start: usize,
    in_flight: usize,
    failure: Option<TranslationError>,
}

impl View for BatchScheduler {
    type V = SchedulerView;

    closed spec fn view(&self) -> SchedulerView {
        SchedulerView {
            input: self.snippets.deep_view(),
            batch_size: self.batch_size as nat,
            max_concurrency: self.max_concurrency as nat,
            slots: self.slots@.map_values(|slot: Slot| slot@),
            launched: self.launched as nat,
            failure: match self.failure {
                Some(fault) => Some(fault@),
                None => None,
            },
        }
    }
}

impl BatchScheduler {
    /// The state is well formed and the counters agree with the slots.
    pub closed spec fn inv(&self) -> bool {
        &&& self@.wf()
        &&& self.in_flight == self@.in_flight()
        &&& self.next_start == if self.launched * self.batch_size < self.snippets.len() {
            self.launched * self.batch_size
        } else {
            self.snippets.len() as int
        }
    }

    /// A scheduler that keeps its invariant is in a well-formed state.
    pub proof fn lemma_inv_wf(&self)
        requires
            self.inv(),
        ensures
            self@.wf(),
            self@.in_flight() <= self@.max_concurrency,
    {
    }

    /// Sets up a run over `snippets`. Options with a zero in them are
    /// refused.
    pub fn new(snippets: Vec<String>, options: &RequestOptions) -> (made: Result<Self, ConfigError>)
        ensures
            match made {
                Ok(scheduler) => {
                    &&& options.valid()
                    &&& scheduler.inv()
                    &&& scheduler@ == SchedulerView::initial(
                        snippets.deep_view(),
                        options.batch_size as nat,
                        options.max_concurrency as nat,
                    )
                },
                Err(fault) => config_fault(options.batch_size, options.max_concurrency) == Some(
                    fault,
                ),
            },
    {
        if options.batch_size == 0 {
            return Err(ConfigError::ZeroBatchSize);
        }
        if options.max_concurrency == 0 {
            return Err(ConfigError::ZeroConcurrency);
        }
        let size = options.batch_size;
        let n = snippets.len();
        let whole = n / size;
        let count = if n % size == 0 {
            whole
        } else {
            proof {
                vstd::arithmetic::div_mod::lemma_fundamental_div_mod(n as int, size as int);
                assert(size * (n as int / size as int) >= (n as int / size as int))
                    by (nonlinear_arith)
                    requires
                        size >= 1,
                        n as int / size as int >= 0,
                ;
            }
            whole + 1
        };
        proof {
            vstd::arithmetic::div_mod::lemma_fundamental_div_mod(n as int, size as int);
            vstd::arithmetic::div_mod::lemma_mod_pos_bound(n as int, size as int);
            let q = n as int / size as int;
            let r = n as int % size as int;
            assert(size * q == q * size) by (nonlinear_arith);
            assert((q + 1) * size == q * size + size) by (nonlinear_arith);
            assert((q - 1) * size == q * size - size) by (nonlinear_arith);
            lemma_batch_count_unique(n as nat, size as nat, count as nat);
        }
        let mut slots: Vec<Slot> = Vec::new();
        let mut b: usize = 0;
        while b < count
            invariant
                b <= count,
                slots.len() == b,
                forall|c: int| 0 <= c < b ==> #[trigger] slots[c]@ is Pending,
            decreases count - b,
        {
            slots.push(Slot::Pending);
            b += 1;
        }
        let scheduler = BatchScheduler {
            snippets,
            batch_size: size,
            max_concurrency: options.max_concurrency,
            slots,
            launched: 0,
            next_start: 0,
            in_flight: 0,
            failure: None,
        };
        proof {
            let start = SchedulerView::initial(
                snippets.deep_view(),
                size as nat,
                options.max_concurrency as nat,
            );
            assert(scheduler@.slots =~= start.slots);
            lemma_initial_wf(snippets.deep_view(), size as nat, options.max_concurrency as nat);
            assert(scheduler.launched * scheduler.batch_size == 0) by (nonlinear_arith)
                requires
                    scheduler.launched == 0,
            ;
        }
        Ok(scheduler)
    }

    /// The number of calls that are running.
    pub fn in_flight(&self) -> (running: usize)
        requires
            self.inv(),
        ensures
            running == self@.in_flight(),
            running <= self@.max_concurrency,
    {
        self.in_flight
    }

    /// The number of batches.
    pub fn batch_total(&self) -> (total: usize)
        requires
            self.inv(),
        ensures
            total == self@.slots.len(),
            total == batch_count(self@.input.len(), self@.batch_size),
    {
        self.slots.len()
    }

    /// Says what is to be done next, and counts a call that it asks for as
    /// running from now on.
    pub fn next_action(&mut self) -> (action: Action)
        requires
            old(self).inv(),
        ensures
            final(self).inv(),
            action@ == old(self)@.action(),
            final(self)@ == old(self)@.after_action(),
    {
        proof {
            lemma_concurrency_cap(self@, 0, Err(Seq::empty()));
        }
        if self.failure.is_some() {
            return Action::Stop;
        }
        if self.launched < self.slots.len() && self.in_flight < self.max_concurrency {
            let batch = self.launched;
            let n = self.snippets.len();
            let start = self.next_start;
            proof {
                lemma_batch_bounds(n as nat, self.batch_size as nat, batch as int);
                assert((batch + 1) * self.batch_size == batch * self.batch_size + self.batch_size)
                    by (nonlinear_arith);
            }
            let end = if n - start > self.batch_size {
                start + self.batch_size
            } else {
                n
            };
            let mut texts: Vec<String> = Vec::new();
            let mut i = start;
            while i < end
                invariant
                    start <= i <= end <= n,
                    n == self.snippets.len(),
                    texts.len() == i - start,
                    forall|j: int|
                        0 <= j < texts.len() ==> #[trigger] texts[j]@ == self.snippets[start + j]@,
                decreases end - i,
            {
                texts.push(self.snippets[i].clone());
                i += 1;
            }
            proof {
                assert(texts.deep_view() =~= self@.batch(batch as int));
                lemma_count_update(self@.slots, batch as int, SlotView::InFlight);
            }
            let ghost before = self@;
            self.slots.set(batch, Slot::InFlight);
            self.launched = batch + 1;
            self.next_start = end;
            self.in_flight = self.in_flight + 1;
            proof {
                assert(self@.slots =~= before.slots.update(batch as int, SlotView::InFlight));
                assert(self@ == before.launch());
            }
            return Action::Launch { batch, snippets: texts };
        }
        if self.in_flight > 0 {
            Action::Wait
        } else {
            Action::Stop
        }
    }

    /// Takes in what the call for `batch` reported. A report on a batch whose
    /// call is not running is turned away and changes nothing.
    pub fn complete(&mut self, batch: usize, outcome: Result<Vec<String>, String>) -> (accepted:
        bool)
        requires
            old(self).inv(),
        ensures
            final(self).inv(),
            accepted == old(self)@.accepts(batch as int),
            accepted ==> final(self)@ == old(self)@.complete(batch as int, outcome_view(outcome)),
            !accepted ==> final(self)@ == old(self)@,
    {
        if batch >= self.slots.len() {
            return false;
        }
        let running = match &self.slots[batch] {
            Slot::InFlight => true,
            _ => false,
        };
        if !running {
            return false;
        }
        let ghost before = self@;
        let n = self.snippets.len();
        proof {
            lemma_concurrency_cap(before, batch as int, outcome_view(outcome));
            lemma_batch_bounds(n as nat, self.batch_size as nat, batch as int);
            assert((batch + 1) * self.batch_size == batch * self.batch_size + self.batch_size)
                by (nonlinear_arith);
        }
        let start = batch * self.batch_size;
        let expected = if n - start > self.batch_size {
            self.batch_size
        } else {
            n - start
        };
        assert(expected == before.batch(batch as int).len());
        let mut fault: Option<TranslationError> = None;
        let slot = match outcome {
            Err(message) => {
                fault = Some(TranslationError::CallFailed { batch, message });
                Slot::Failed
            },
            Ok(texts) => {
                if texts.len() != expected {
                    fault = Some(
                        TranslationError::LengthMismatch {
                            batch,
                            expected,
                            returned: texts.len(),
                        },
                    );
                    Slot::Failed
                } else {
                    Slot::Done(texts)
                }
            },
        };
        self.slots.set(batch, slot);
        self.in_flight = self.in_flight - 1;
        if self.failure.is_none() {
            self.failure = fault;
        }
        proof {
            let after = before.complete(batch as int, outcome_view(outcome));
            assert(self@.slots =~= after.slots);
            assert(self@ == after);
        }
        true
    }

    /// How the run ended: the translations in the order of the input, or the
    /// first fault. `None` while calls are still to be made or awaited.
    pub fn outcome(&self) -> (ended: Option<Result<Vec<String>, TranslationError>>)
        requires
            self.inv(),
        ensures
            match (ended, self@.outcome()) {
                (None, None) => true,
                (Some(Ok(texts)), Some(Ok(merged))) => texts.deep_view() == merged,
                (Some(Err(fault)), Some(Err(first))) => fault@ == first,
                _ => false,
            },
    {
        match &self.failure {
            Some(fault) => {
                return Some(Err(fault.duplicate()));
            },
            None => {},
        }
        proof {
            lemma_count_zero(self@.slots);
        }
        if self.launched < self.slots.len() || self.in_flight > 0 {
            proof {
                if self.launched < self.slots.len() {
                    assert(self@.slots[self.launched as int] is Pending);
                }
            }
            return None;
        }
        let ghost state = self@;
        let ghost size = self.batch_size as int;
        assert(state.all_done()) by {
            assert forall|b: int| 0 <= b < state.slots.len() implies #[trigger] state.slots[b] is Done by {
                assert(!(state.slots[b] is Pending));
                assert(!(state.slots[b] is Failed));
                assert(!(state.slots[b] is InFlight));
            }
        }
        let n = self.snippets.len();
        let mut texts: Vec<String> = Vec::new();
        let mut b: usize = 0;
        while b < self.slots.len()
            invariant
                self.inv(),
                state == self@,
                state.all_done(),
                size == self.batch_size,
                n == self.snippets.len(),
                b <= self.slots.len(),
                texts.len() == if b * size < n {
                    b * size
                } else {
                    n as int
                },
                forall|i: int| 0 <= i < texts.len() ==> #[trigger] texts[i]@ == state.merged()[i],
            decreases self.slots.len() - b,
        {
            proof {
                lemma_batch_bounds(n as nat, size as nat, b as int);
                assert((b + 1) * size == b * size + size) by (nonlinear_arith);
                assert(state.slots[b as int] is Done);
            }
            let ghost base = texts.len() as int;
            match &self.slots[b] {
                Slot::Done(part) => {
                    assert(part.deep_view() == state.delivered(b as int));
                    let mut j: usize = 0;
                    while j < part.len()
                        invariant
                            j <= part.len(),
                            base == b * size,
                            size > 0,
                            part.len() == batch_end(b as int, size as nat, n as nat) - b * size,
                            part.len() <= size,
                            base + part.len() <= n,
                            n == state.input.len(),
                            size == state.batch_size,
                            part.deep_view() == state.delivered(b as int),
                            texts.len() == base + j,
                            forall|i: int|
                                0 <= i < texts.len() ==> #[trigger] texts[i]@ == state.merged()[i],
                        decreases part.len() - j,
                    {
                        proof {
                            let i = base + j;
                            assert(size * (b as int) == b * size) by (nonlinear_arith);
                            vstd::arithmetic::div_mod::lemma_fundamental_div_mod_converse(
                                i,
                                size,
                                b as int,
                                j as int,
                            );
                            assert(part.deep_view()[j as int] == part[j as int]@);
                        }
                        texts.push(part[j].clone());
                        j += 1;
                    }
                },
                _ => {},
            }
            b += 1;
        }
        proof {
            if self.slots.len() > 0 {
                lemma_batch_bounds(n as nat, size as nat, self.slots.len() - 1);
                assert((self.slots.len() - 1 + 1) * size == self.slots.len() * size)
                    by (nonlinear_arith);
            } else {
                if n > 0 {
                    lemma_batch_count_positive(n as nat, size as nat);
                }
                assert(b * size == 0) by (nonlinear_arith)
                    requires
                        b == 0,
                ;
            }
            assert(texts.deep_view() =~= state.merged());
        }
        Some(Ok(texts))
    }
}

} // verus!
