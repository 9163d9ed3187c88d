//! The decisions of the property runner: which property and tool a name
//! picks, the fixed inputs of the deterministic tool, how outcomes of several
//! properties combine, how long generated inputs are, and the JSON line that
//! reports a run.
use vstd::prelude::*;

use crate::text::push_text;

use crate::etna::{
    clear_resize_text, drop_all_text, fails_with, first_occurrences, law_first_occurrences,
    law_first_occurrences_of_distinct, pop_drops_text, property_clear_resize_drops_all, property_clone_unbounded_no_panic,
    property_drop_impl_drops_all, property_pop_drops_key, property_pop_iter_consistent,
    PropertyResult,
};

verus! {

// ---------------------------------------------------------------------------
// Names.
// ---------------------------------------------------------------------------

/// The properties that the runner knows.
#[derive(Debug, Clone, Copy, PartialEq, Eq)]
pub enum Property {
    CloneUnboundedNoPanic,
    PopIterConsistent,
    DropImplDropsAll,
    ClearResizeDropsAll,
    PopDropsKey,
}

/// The tools that can drive a property.
#[derive(Debug, Clone, Copy, PartialEq, Eq)]
pub enum Tool {
    Etna,
    Proptest,
    Quickcheck,
    Crabcheck,
    Hegel,
}

/// Whether two strings hold the same characters.
pub fn text_eq(a: &str, b: &str) -> (r: bool)
    ensures
        r <==> a@ == b@,
{
    let n = a.unicode_len();
    if n != b.unicode_len() {
        return false;
    }
    let mut i: usize = 0;
    while i < n
        invariant
            n == a@.len(),
            n == b@.len(),
            i <= n,
            forall|j: int| 0 <= j < i ==> a@[j] == b@[j],
        decreases n - i,
    {
        if a.get_char(i) != b.get_char(i) {
            return false;
        }
        i += 1;
    }
    assert(a@ =~= b@);
    true
}

/// The property that a name denotes.
pub open spec fn property_named(name: Seq<char>) -> Option<Property> {
    if name == "CloneUnboundedNoPanic"@ {
        Some(Property::CloneUnboundedNoPanic)
    } else if name == "PopIterConsistent"@ {
        Some(Property::PopIterConsistent)
    } else if name == "DropImplDropsAll"@ {
        Some(Property::DropImplDropsAll)
    } else if name == "ClearResizeDropsAll"@ {
        Some(Property::ClearResizeDropsAll)
    } else if name == "PopDropsKey"@ {
        Some(Property::PopDropsKey)
    } else {
        None
    }
}

/// Reads a property name.
pub fn parse_property(name: &str) -> (r: Option<Property>)
    ensures
        r == property_named(name@),
{
    if text_eq(name, "CloneUnboundedNoPanic") {
        Some(Property::CloneUnboundedNoPanic)
    } else if text_eq(name, "PopIterConsistent") {
        Some(Property::PopIterConsistent)
    } else if text_eq(name, "DropImplDropsAll") {
        Some(Property::DropImplDropsAll)
    } else if text_eq(name, "ClearResizeDropsAll") {
        Some(Property::ClearResizeDropsAll)
    } else if text_eq(name, "PopDropsKey") {
        Some(Property::PopDropsKey)
    } else {
        None
    }
}

/// The tool that a name denotes.
pub open spec fn tool_named(name: Seq<char>) -> Option<Tool> {
    if name == "etna"@ {
        Some(Tool::Etna)
    } else if name == "proptest"@ {
        Some(Tool::Proptest)
    } else if name == "quickcheck"@ {
        Some(Tool::Quickcheck)
    } else if name == "crabcheck"@ {
        Some(Tool::Crabcheck)
    } else if name == "hegel"@ {
        Some(Tool::Hegel)
    } else {
        None
    }
}

/// Reads a tool name.
pub fn parse_tool(name: &str) -> (r: Option<Tool>)
    ensures
        r == tool_named(name@),
{
    if text_eq(name, "etna") {
        Some(Tool::Etna)
    } else if text_eq(name, "proptest") {
        Some(Tool::Proptest)
    } else if text_eq(name, "quickcheck") {
        Some(Tool::Quickcheck)
    } else if text_eq(name, "crabcheck") {
        Some(Tool::Crabcheck)
    } else if text_eq(name, "hegel") {
        Some(Tool::Hegel)
    } else {
        None
    }
}

/// The name of a tool.
pub open spec fn tool_text(tool: Tool) -> Seq<char> {
    match tool {
        Tool::Etna => "etna"@,
        Tool::Proptest => "proptest"@,
        Tool::Quickcheck => "quickcheck"@,
        Tool::Crabcheck => "crabcheck"@,
        Tool::Hegel => "hegel"@,
    }
}

/// The name of a tool.
pub fn tool_name(tool: Tool) -> (r: &'static str)
    ensures
        r@ == tool_text(tool),
{
    match tool {
        Tool::Etna => "etna",
        Tool::Proptest => "proptest",
        Tool::Quickcheck => "quickcheck",
        Tool::Crabcheck => "crabcheck",
        Tool::Hegel => "hegel",
    }
}

/// The error for a tool name that names no tool.
pub open spec fn unknown_tool_text(name: Seq<char>) -> Seq<char> {
    "Unknown tool: "@ + name
}

/// The error for a tool name that names no tool.
pub fn unknown_tool_message(name: &str) -> (r: String)
    ensures
        r@ == unknown_tool_text(name@),
{
    let mut out = String::new();
    push_text(&mut out, "Unknown tool: ");
    push_text(&mut out, name);
    out
}

/// The error for a property name that names no property.
pub open spec fn unknown_property_text(tool: Tool, name: Seq<char>) -> Seq<char> {
    "Unknown property for "@ + tool_text(tool) + ": "@ + name
}

/// The error for a property name that names no property.
pub fn unknown_property_message(tool: Tool, name: &str) -> (r: String)
    ensures
        r@ == unknown_property_text(tool, name@),
{
    let mut out = String::new();
    push_text(&mut out, "Unknown property for ");
    push_text(&mut out, tool_name(tool));
    push_text(&mut out, ": ");
    push_text(&mut out, name);
    out
}

/// The name under which each property is run and reported.
pub open spec fn property_name_text(property: Property) -> Seq<char> {
    match property {
        Property::CloneUnboundedNoPanic => "CloneUnboundedNoPanic"@,
        Property::PopIterConsistent => "PopIterConsistent"@,
        Property::DropImplDropsAll => "DropImplDropsAll"@,
        Property::ClearResizeDropsAll => "ClearResizeDropsAll"@,
        Property::PopDropsKey => "PopDropsKey"@,
    }
}

proof fn lemma_property_names_distinct()
    ensures
        forall|p: Property, q: Property|
            p != q ==> #[trigger] property_name_text(p) != #[trigger] property_name_text(q),
{
    reveal_strlit("CloneUnboundedNoPanic");
    reveal_strlit("PopIterConsistent");
    reveal_strlit("DropImplDropsAll");
    reveal_strlit("ClearResizeDropsAll");
    reveal_strlit("PopDropsKey");
    assert forall|p: Property, q: Property| p != q implies property_name_text(p).len()
        != property_name_text(q).len() by {}
}

/// A property name is read back as exactly the property it names, and only
/// a property's own name is read as that property.
pub proof fn law_property_names()
    ensures
        forall|p: Property| #[trigger] property_named(property_name_text(p)) == Some(p),
        forall|s: Seq<char>|
            #[trigger] property_named(s) matches Some(p) ==> s == property_name_text(p),
{
    lemma_property_names_distinct();
    assert forall|p: Property| #[trigger] property_named(property_name_text(p)) == Some(p) by {
        match p {
            Property::CloneUnboundedNoPanic => {},
            Property::PopIterConsistent => {
                assert(property_name_text(p) != property_name_text(Property::CloneUnboundedNoPanic));
            },
            Property::DropImplDropsAll => {
                assert(property_name_text(p) != property_name_text(Property::CloneUnboundedNoPanic));
                assert(property_name_text(p) != property_name_text(Property::PopIterConsistent));
            },
            Property::ClearResizeDropsAll => {
                assert(property_name_text(p) != property_name_text(Property::CloneUnboundedNoPanic));
                assert(property_name_text(p) != property_name_text(Property::PopIterConsistent));
                assert(property_name_text(p) != property_name_text(Property::DropImplDropsAll));
            },
            Property::PopDropsKey => {
                assert(property_name_text(p) != property_name_text(Property::CloneUnboundedNoPanic));
                assert(property_name_text(p) != property_name_text(Property::PopIterConsistent));
                assert(property_name_text(p) != property_name_text(Property::DropImplDropsAll));
                assert(property_name_text(p) != property_name_text(
                    Property::ClearResizeDropsAll,
                ));
            },
        }
    }
}

proof fn lemma_tool_names_distinct()
    ensures
        forall|t: Tool, u: Tool| t != u ==> #[trigger] tool_text(t) != #[trigger] tool_text(u),
{
    reveal_strlit("etna");
    reveal_strlit("proptest");
    reveal_strlit("quickcheck");
    reveal_strlit("crabcheck");
    reveal_strlit("hegel");
    assert forall|t: Tool, u: Tool| t != u implies tool_text(t).len() != tool_text(u).len() by {}
}

/// A tool's name is read back as exactly that tool, and only a tool's own
/// name is read as that tool.
pub proof fn law_tool_names()
    ensures
        forall|t: Tool| #[trigger] tool_named(tool_text(t)) == Some(t),
        forall|s: Seq<char>| #[trigger] tool_named(s) matches Some(t) ==> s == tool_text(t),
{
    lemma_tool_names_distinct();
    assert forall|t: Tool| #[trigger] tool_named(tool_text(t)) == Some(t) by {
        match t {
            Tool::Etna => {},
            Tool::Proptest => {
                assert(tool_text(t) != tool_text(Tool::Etna));
            },
            Tool::Quickcheck => {
                assert(tool_text(t) != tool_text(Tool::Etna));
                assert(tool_text(t) != tool_text(Tool::Proptest));
            },
            Tool::Crabcheck => {
                assert(tool_text(t) != tool_text(Tool::Etna));
                assert(tool_text(t) != tool_text(Tool::Proptest));
                assert(tool_text(t) != tool_text(Tool::Quickcheck));
            },
            Tool::Hegel => {
                assert(tool_text(t) != tool_text(Tool::Etna));
                assert(tool_text(t) != tool_text(Tool::Proptest));
                assert(tool_text(t) != tool_text(Tool::Quickcheck));
                assert(tool_text(t) != tool_text(Tool::Crabcheck));
            },
        }
    }
}

// ---------------------------------------------------------------------------
// Outcomes.
// ---------------------------------------------------------------------------

/// How many inputs a run tried and how long it took.
#[derive(Debug, Clone, Copy, PartialEq, Eq)]
pub struct Metrics {
    pub inputs: u64,
    pub elapsed_us: u128,
}

impl Metrics {
    /// No inputs, no time.
    pub fn zero() -> (r: Metrics)
        ensures
            r.inputs == 0,
            r.elapsed_us == 0,
    {
        Metrics { inputs: 0, elapsed_us: 0 }
    }

    /// The metrics of two runs together.
    pub fn combine(self, other: Metrics) -> (r: Metrics)
        requires
            self.inputs + other.inputs <= u64::MAX,
            self.elapsed_us + other.elapsed_us <= u128::MAX,
        ensures
            r.inputs == self.inputs + other.inputs,
            r.elapsed_us == self.elapsed_us + other.elapsed_us,
    {
        Metrics {
            inputs: self.inputs + other.inputs,
            elapsed_us: self.elapsed_us + other.elapsed_us,
        }
    }
}

impl Default for Metrics {
    fn default() -> (r: Metrics)
        ensures
            r.inputs == 0,
            r.elapsed_us == 0,
    {
        Metrics::zero()
    }
}

/// A property's result as a run's status: a failure carries its message;
/// passing and discarding both count as success.
pub fn to_err(r: PropertyResult) -> (s: Result<(), String>)
    ensures
        match r {
            PropertyResult::Fail(m) => s == Err::<(), String>(m),
            _ => s is Ok,
        },
{
    match r {
        PropertyResult::Pass | PropertyResult::Discard => Ok(()),
        PropertyResult::Fail(m) => Err(m),
    }
}

/// Adds the outcome of one more property to the outcome so far: the metrics
/// add up, and the first failure is kept.
pub fn absorb(
    so_far: (Result<(), String>, Metrics),
    next: (Result<(), String>, Metrics),
) -> (r: (Result<(), String>, Metrics))
    requires
        so_far.1.inputs + next.1.inputs <= u64::MAX,
        so_far.1.elapsed_us + next.1.elapsed_us <= u128::MAX,
    ensures
        r.1.inputs == so_far.1.inputs + next.1.inputs,
        r.1.elapsed_us == so_far.1.elapsed_us + next.1.elapsed_us,
        r.0 == (if so_far.0 is Err { so_far.0 } else { next.0 }),
{
    let (status, total) = so_far;
    let (r, m) = next;
    let total = total.combine(m);
    let status = match status {
        Ok(()) => r,
        Err(e) => Err(e),
    };
    (status, total)
}

/// The status of running properties in turn, given each one's status: the
/// first failure, or success when none failed.
pub open spec fn first_failure(statuses: Seq<Result<(), String>>) -> Result<(), String>
    decreases statuses.len(),
{
    if statuses.len() == 0 {
        Ok(())
    } else if statuses[0] is Err {
        statuses[0]
    } else {
        first_failure(statuses.drop_first())
    }
}

/// Absorbing outcomes one by one keeps the first failure of the whole run.
pub proof fn law_absorb_keeps_first_failure(
    statuses: Seq<Result<(), String>>,
    next: Result<(), String>,
)
    ensures
        first_failure(statuses) is Err ==> first_failure(statuses.push(next)) == first_failure(
            statuses,
        ),
        first_failure(statuses) is Ok ==> (first_failure(statuses.push(next)) is Err <==> next is Err),
        first_failure(statuses) is Ok && next is Err ==> first_failure(statuses.push(next)) == next,
    decreases statuses.len(),
{
    reveal_with_fuel(first_failure, 2);
    if statuses.len() > 0 {
        law_absorb_keeps_first_failure(statuses.drop_first(), next);
        assert(statuses.push(next)[0] == statuses[0]);
        assert(statuses.push(next).drop_first() =~= statuses.drop_first().push(next));
    } else {
        let p = statuses.push(next);
        assert(p.drop_first() =~= Seq::<Result<(), String>>::empty());
        assert(p[0] == next);
    }
}

proof fn lemma_first_failure_ok(statuses: Seq<Result<(), String>>)
    ensures
        first_failure(statuses) is Ok ==> first_failure(statuses) == Ok::<(), String>(()),
    decreases statuses.len(),
{
    if statuses.len() > 0 && statuses[0] is Ok {
        lemma_first_failure_ok(statuses.drop_first());
    }
}

/// Every property, in the order in which a run over all of them takes them.
pub open spec fn all_properties() -> Seq<Property> {
    seq![
        Property::CloneUnboundedNoPanic,
        Property::PopIterConsistent,
        Property::DropImplDropsAll,
        Property::ClearResizeDropsAll,
        Property::PopDropsKey,
    ]
}

fn property_at(i: usize) -> (p: Property)
    requires
        i < 5,
    ensures
        p == all_properties()[i as int],
{
    if i == 0 {
        Property::CloneUnboundedNoPanic
    } else if i == 1 {
        Property::PopIterConsistent
    } else if i == 2 {
        Property::DropImplDropsAll
    } else if i == 3 {
        Property::ClearResizeDropsAll
    } else {
        Property::PopDropsKey
    }
}

/// A run over all properties takes every property, each exactly once.
pub proof fn law_all_properties_each_once()
    ensures
        all_properties().len() == 5,
        all_properties().no_duplicates(),
        forall|p: Property| #[trigger] all_properties().contains(p),
{
    let ps = all_properties();
    assert forall|p: Property| #[trigger] ps.contains(p) by {
        let i: int = match p {
            Property::CloneUnboundedNoPanic => 0,
            Property::PopIterConsistent => 1,
            Property::DropImplDropsAll => 2,
            Property::ClearResizeDropsAll => 3,
            Property::PopDropsKey => 4,
        };
        assert(ps[i] == p);
    }
}

/// The statuses of a sequence of outcomes.
pub open spec fn statuses_of(outcomes: Seq<(Result<(), String>, Metrics)>) -> Seq<Result<(), String>> {
    outcomes.map_values(|o: (Result<(), String>, Metrics)| o.0)
}

/// The inputs tried over a sequence of outcomes.
pub open spec fn total_inputs(outcomes: Seq<(Result<(), String>, Metrics)>) -> nat
    decreases outcomes.len(),
{
    if outcomes.len() == 0 {
        0
    } else {
        total_inputs(outcomes.drop_last()) + outcomes.last().1.inputs as nat
    }
}

/// The time taken over a sequence of outcomes.
pub open spec fn total_elapsed(outcomes: Seq<(Result<(), String>, Metrics)>) -> nat
    decreases outcomes.len(),
{
    if outcomes.len() == 0 {
        0
    } else {
        total_elapsed(outcomes.drop_last()) + outcomes.last().1.elapsed_us as nat
    }
}

/// Whether `run_one` answers every property, and whatever it answers for the
/// five properties in turn, the inputs and the times add up without
/// overflow.
pub open spec fn runs_add_up<F: Fn(Property) -> (Result<(), String>, Metrics)>(run_one: F) -> bool {
    &&& forall|p: Property| call_requires(run_one, (p,))
    &&& forall|outcomes: Seq<(Result<(), String>, Metrics)>|
        #![trigger total_inputs(outcomes)]
        outcomes.len() == 5 && (forall|i: int|
            0 <= i < 5 ==> call_ensures(run_one, (all_properties()[i],), #[trigger] outcomes[i]))
            ==> total_inputs(outcomes) <= u64::MAX && total_elapsed(outcomes) <= u128::MAX
}

proof fn lemma_totals_of_prefix(outcomes: Seq<(Result<(), String>, Metrics)>, i: int)
    requires
        0 <= i <= outcomes.len(),
    ensures
        total_inputs(outcomes.take(i)) <= total_inputs(outcomes),
        total_elapsed(outcomes.take(i)) <= total_elapsed(outcomes),
    decreases outcomes.len(),
{
    if i < outcomes.len() {
        let p = outcomes.drop_last();
        lemma_totals_of_prefix(p, i);
        assert(p.take(i) =~= outcomes.take(i));
    } else {
        assert(outcomes.take(i) =~= outcomes);
    }
}

/// Runs every property in turn with `run_one`: the status is the first
/// failure (or success when none failed), and the metrics add up.
pub fn run_all<F: Fn(Property) -> (Result<(), String>, Metrics)>(run_one: F) -> (r: (
    Result<(), String>,
    Metrics,
))
    requires
        runs_add_up(run_one),
    ensures
        exists|outcomes: Seq<(Result<(), String>, Metrics)>|
            {
                &&& outcomes.len() == 5
                &&& forall|i: int|
                    0 <= i < 5 ==> call_ensures(
                        run_one,
                        (all_properties()[i],),
                        #[trigger] outcomes[i],
                    )
                &&& r.0 == first_failure(statuses_of(outcomes))
                &&& r.1.inputs == total_inputs(outcomes)
                &&& r.1.elapsed_us == total_elapsed(outcomes)
            },
{
    let mut results: Vec<(Result<(), String>, Metrics)> = Vec::new();
    let mut i: usize = 0;
    while i < 5
        invariant
            runs_add_up(run_one),
            i <= 5,
            results@.len() == i,
            forall|j: int|
                0 <= j < i ==> call_ensures(run_one, (all_properties()[j],), #[trigger] results@[j]),
        decreases 5 - i,
    {
        let p = property_at(i);
        let next = run_one(p);
        results.push(next);
        i += 1;
    }
    let ghost outcomes = results@;
    proof {
        assert(outcomes.skip(0) =~= outcomes);
        assert(total_inputs(outcomes) <= u64::MAX && total_elapsed(outcomes) <= u128::MAX);
    }
    let mut acc: (Result<(), String>, Metrics) = (Ok(()), Metrics::zero());
    let mut k: usize = 0;
    while k < 5
        invariant
            results@ == outcomes.skip(k as int),
            outcomes.len() == 5,
            total_inputs(outcomes) <= u64::MAX,
            total_elapsed(outcomes) <= u128::MAX,
            k <= 5,
            acc.1.inputs == total_inputs(outcomes.take(k as int)),
            acc.1.elapsed_us == total_elapsed(outcomes.take(k as int)),
            acc.0 is Err ==> acc.0 == first_failure(statuses_of(outcomes.take(k as int))),
            acc.0 is Ok ==> first_failure(statuses_of(outcomes.take(k as int))) is Ok,
        decreases 5 - k,
    {
        let next = results.remove(0);
        proof {
            assert(next == outcomes[k as int]);
            assert(results@ =~= outcomes.skip(k + 1));
            let before = outcomes.take(k as int);
            let after = outcomes.take(k + 1);
            assert(after.drop_last() =~= before);
            assert(after.last() == outcomes[k as int]);
            lemma_totals_of_prefix(outcomes, k + 1);
            assert(statuses_of(after) =~= statuses_of(before).push(outcomes[k as int].0));
            law_absorb_keeps_first_failure(statuses_of(before), outcomes[k as int].0);
        }
        acc = absorb(acc, next);
        k += 1;
    }
    assert(outcomes.take(5) =~= outcomes);
    let (status, total) = acc;
    let status = match status {
        Ok(_) => Ok(()),
        Err(e) => Err(e),
    };
    proof {
        lemma_first_failure_ok(statuses_of(outcomes));
        if status is Ok {
            assert(first_failure(statuses_of(outcomes)) == Ok::<(), String>(()));
        }
    }
    (status, total)
}

// ---------------------------------------------------------------------------
// The deterministic tool.
// ---------------------------------------------------------------------------

/// Runs `property` once on its fixed witness input.
pub fn run_witness(property: Property) -> (r: PropertyResult)
    ensures
        property == Property::CloneUnboundedNoPanic ==> r == PropertyResult::Pass,
        property == Property::PopIterConsistent ==> r == PropertyResult::Pass,
        property == Property::DropImplDropsAll ==> r == PropertyResult::Pass || exists|
            observed: usize,
        | observed != 16 && fails_with(r, #[trigger] drop_all_text(8, observed, 16)),
        property == Property::ClearResizeDropsAll ==> r == PropertyResult::Pass || exists|
            observed: usize,
        |
            observed != 8 && fails_with(
                r,
                #[trigger] clear_resize_text("clear()"@, 4, observed, 8),
            ),
        property == Property::PopDropsKey ==> r == PropertyResult::Pass || exists|
            observed: usize,
        | observed != 5 && fails_with(r, #[trigger] pop_drops_text(5, observed, 5)),
{
    match property {
        Property::CloneUnboundedNoPanic => property_clone_unbounded_no_panic(
            vec![(1u32, 10u32), (2, 20), (3, 30)],
        ),
        Property::PopIterConsistent => {
            let keys = vec![1u32, 2, 3, 4, 5];
            let ghost k = keys@;
            proof {
                law_first_occurrences(k);
                assert(k.contains(k[0]) && k.contains(k[1]));
                let d = first_occurrences(k);
                assert(d.contains(1u32) && d.contains(2u32));
            }
            property_pop_iter_consistent((keys, 2))
        },
        Property::DropImplDropsAll => {
            let keys = vec![1u32, 2, 3, 4, 5, 6, 7, 8];
            let ghost k = keys@;
            proof {
                law_first_occurrences(k);
                assert(k.contains(k[0]));
                law_first_occurrences_of_distinct(k);
            }
            property_drop_impl_drops_all(keys)
        },
        Property::ClearResizeDropsAll => {
            let keys = vec![1u32, 2, 3, 4];
            let ghost k = keys@;
            proof {
                law_first_occurrences(k);
                assert(k.contains(k[0]));
                law_first_occurrences_of_distinct(k);
            }
            property_clear_resize_drops_all((keys, true))
        },
        Property::PopDropsKey => {
            let keys = vec![1u32, 2, 3, 4, 5];
            let ghost k = keys@;
            proof {
                law_first_occurrences(k);
                assert(k.contains(k[0]));
                law_first_occurrences_of_distinct(k);
            }
            property_pop_drops_key(keys)
        },
    }
}

// ---------------------------------------------------------------------------
// Generated inputs.
// ---------------------------------------------------------------------------

/// The longest key list that a generator produces.
pub const MAX_KEYS: usize = 24;

/// The length of a generated list of at least `min` keys, from a random
/// byte: `min + draw % (MAX_KEYS - min + 1)`.
pub fn draw_len(draw: u8, min: usize) -> (r: usize)
    requires
        min <= MAX_KEYS,
    ensures
        r == min + (draw as int) % ((MAX_KEYS - min + 1) as int),
        min <= r <= MAX_KEYS,
{
    let d: usize = draw as usize;
    min + d % (MAX_KEYS - min + 1)
}

} // verus!
