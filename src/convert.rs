//! Whole conversions: a sequence of events, or an XML text, to bracket
//! notation.
use vstd::prelude::*;
use crate::attrs::keys_identify;
use crate::transducer::{
    Element, Event, Fault, State, Transducer, lemma_open_ignores_attribute_order, run,
};
use crate::xml::Tokenizer;

verus! {

/// Why a conversion stopped.
#[derive(Debug)]
pub enum ConvertError {
    /// The document is malformed at the given byte offset.
    Parse { position: usize, cause: quick_xml::Error },
    /// An element name, attribute key or attribute value is not UTF-8.
    Decode,
    /// Character data is not UTF-8 or holds a malformed escape.
    Unescape,
    /// The nesting depth or the record count no longer fits its counter.
    Limit,
}

/// The error that a fault of the transducer stands for.
pub open spec fn fault_error(f: Fault) -> ConvertError {
    match f {
        Fault::Decode => ConvertError::Decode,
        Fault::Unescape => ConvertError::Unescape,
    }
}

fn from_fault(f: Fault) -> (r: ConvertError)
    ensures
        r == fault_error(f),
{
    match f {
        Fault::Decode => ConvertError::Decode,
        Fault::Unescape => ConvertError::Unescape,
    }
}

proof fn lemma_run_bounds(evs: Seq<Event>)
    ensures
        run(evs) is Ok ==> {
            let st = run(evs)->Ok_0;
            &&& -evs.len() <= st.depth <= evs.len()
            &&& 0 <= st.records <= evs.len()
        },
    decreases evs.len(),
{
    if evs.len() > 0 {
        lemma_run_bounds(evs.drop_last());
    }
}

/// Converts a whole sequence of events, in order, into bracket notation.
pub fn convert_events(events: Vec<Event>) -> (r: Result<Transducer, ConvertError>)
    requires
        events@.len() < i64::MAX - 2,
    ensures
        match run(events@) {
            Ok(st) => r is Ok && r->Ok_0.state() == st,
            Err(f) => r is Err && r->Err_0 == fault_error(f),
        },
{
    let ghost all = events@;
    let mut t = Transducer::new();
    let mut i: usize = 0;
    let mut evs = events;
    let n = evs.len();
    proof {
        assert(all.take(0) =~= Seq::<Event>::empty());
        assert(all.skip(0) =~= all);
    }
    while evs.len() > 0
        invariant
            i + evs@.len() == all.len(),
            all == events@,
            all.len() == n,
            all.len() < i64::MAX - 2,
            evs@ == all.skip(i as int),
            run(all.take(i as int)) == Ok::<State, Fault>(t.state()),
        decreases evs.len(),
    {
        let ev = evs.remove(0);
        proof {
            lemma_run_bounds(all.take(i as int));
            assert(all.skip(i as int)[0] == ev);
            assert(all.take(i + 1).drop_last() =~= all.take(i as int));
            assert(all.take(i + 1).last() == ev);
            assert(t.has_room());
            assert(evs@ =~= all.skip(i + 1));
        }
        match t.step(ev) {
            Ok(()) => {},
            Err(f) => {
                proof {
                    assert(run(all.take(i + 1)) == Err::<State, Fault>(f));
                    lemma_run_fails(all, i as int + 1);
                }
                return Err(from_fault(f));
            },
        }
        i = i + 1;
    }
    proof {
        assert(all.take(all.len() as int) =~= all);
    }
    Ok(t)
}

/// Whether `st` is what some event stream, closed by the end of the
/// document, turns into.
pub open spec fn reachable(st: State) -> bool {
    exists|evs: Seq<Event>|
        #[trigger] run(evs) == Ok::<State, Fault>(st) && evs.len() > 0 && evs.last() is Eof
}

/// Tokenizes an XML document and converts it into bracket notation, one
/// line per child of the document's root element. Text is trimmed of
/// surrounding white space, and text of white space alone is dropped.
pub fn convert_str(xml: &str) -> (r: Result<Transducer, ConvertError>)
    ensures
        r is Ok ==> reachable(r->Ok_0.state()),
{
    let mut tokens = Tokenizer::new(xml);
    let mut t = Transducer::new();
    let mut budget: usize = xml.len();
    let ghost mut evs: Seq<Event> = Seq::empty();
    loop
        invariant
            run(evs) == Ok::<State, Fault>(t.state()),
        decreases budget,
    {
        let ev = match tokens.next_event() {
            Ok(ev) => ev,
            Err(e) => return Err(e),
        };
        let ghost before = evs;
        proof {
            evs = evs.push(ev);
            assert(evs.drop_last() == before);
        }
        if matches!(ev, Event::Eof) {
            return Ok(t);
        }
        if budget == 0 || t.depth <= i64::MIN + 1 || t.depth >= i64::MAX - 1 || t.records == u64::MAX {
            return Err(ConvertError::Limit);
        }
        match t.step(ev) {
            Ok(()) => {},
            Err(f) => return Err(from_fault(f)),
        }
        budget = budget - 1;
    }
}

/// Opening tags minus closing tags in a stream of events.
pub open spec fn balance(evs: Seq<Event>) -> int
    decreases evs.len(),
{
    if evs.len() == 0 {
        0
    } else {
        balance(evs.drop_last()) + match evs.last() {
            Event::Start(_) => 1int,
            Event::End => -1int,
            _ => 0int,
        }
    }
}

/// Every closing tag closes an element opened before it, and every element
/// opened is closed.
pub open spec fn well_nested(evs: Seq<Event>) -> bool {
    &&& forall|i: int| 0 <= i <= evs.len() ==> balance(#[trigger] evs.take(i)) >= 0
    &&& balance(evs) == 0
}

proof fn lemma_depth_is_balance(evs: Seq<Event>)
    ensures
        run(evs) is Ok ==> run(evs)->Ok_0.depth == balance(evs),
    decreases evs.len(),
{
    if evs.len() > 0 {
        lemma_depth_is_balance(evs.drop_last());
    }
}

proof fn lemma_prefix_runs(evs: Seq<Event>, i: int)
    requires
        0 <= i <= evs.len(),
        run(evs) is Ok,
    ensures
        run(evs.take(i)) is Ok,
    decreases evs.len(),
{
    if i == evs.len() {
        assert(evs.take(i) =~= evs);
    } else {
        assert(evs.drop_last().take(i) =~= evs.take(i));
        lemma_prefix_runs(evs.drop_last(), i);
    }
}

/// On a well-nested event stream that converts without a fault, the depth
/// is never negative after any prefix of the stream, and is back to zero
/// at its end.
pub proof fn lemma_depth_invariant(evs: Seq<Event>)
    requires
        well_nested(evs),
        run(evs) is Ok,
    ensures
        forall|i: int|
            0 <= i <= evs.len() ==> run(#[trigger] evs.take(i)) is Ok && run(evs.take(i))->Ok_0.depth >= 0,
        run(evs)->Ok_0.depth == 0,
{
    assert forall|i: int| 0 <= i <= evs.len() implies run(#[trigger] evs.take(i)) is Ok
        && run(evs.take(i))->Ok_0.depth >= 0 by {
        lemma_prefix_runs(evs, i);
        lemma_depth_is_balance(evs.take(i));
    };
    lemma_depth_is_balance(evs);
}

/// Whether two elements have the same name and the same attributes, given
/// perhaps in another order, no two different attributes sharing a key.
pub open spec fn reordered_element(a: Element, b: Element) -> bool {
    &&& a.name@ == b.name@
    &&& a.attrs@.to_multiset() == b.attrs@.to_multiset()
    &&& keys_identify(a.attrs@.to_multiset())
}

/// Whether two events are the same but for the order in which a tag lists
/// its attributes.
pub open spec fn reordered_event(a: Event, b: Event) -> bool {
    match (a, b) {
        (Event::Start(x), Event::Start(y)) => reordered_element(x, y),
        (Event::Empty(x), Event::Empty(y)) => reordered_element(x, y),
        _ => a == b,
    }
}

/// Two event streams that differ only in the order in which tags list
/// their attributes convert to the same text, counters and progress, or
/// stop on the same fault.
pub proof fn lemma_run_ignores_attribute_order(a: Seq<Event>, b: Seq<Event>)
    requires
        a.len() == b.len(),
        forall|i: int| 0 <= i < a.len() ==> reordered_event(#[trigger] a[i], b[i]),
    ensures
        run(a) == run(b),
    decreases a.len(),
{
    if a.len() > 0 {
        let n = a.len() - 1;
        assert forall|i: int| 0 <= i < n implies reordered_event(#[trigger] a.drop_last()[i], b.drop_last()[i]) by {
            assert(reordered_event(a[i], b[i]));
        };
        lemma_run_ignores_attribute_order(a.drop_last(), b.drop_last());
        assert(reordered_event(a[n], b[n]));
        match (a[n], b[n]) {
            (Event::Start(x), Event::Start(y)) => lemma_open_ignores_attribute_order(x, y),
            (Event::Empty(x), Event::Empty(y)) => lemma_open_ignores_attribute_order(x, y),
            _ => {},
        }
    }
}

proof fn lemma_run_fails(evs: Seq<Event>, n: int)
    requires
        0 < n <= evs.len(),
        run(evs.take(n)) is Err,
    ensures
        run(evs) == run(evs.take(n)),
    decreases evs.len(),
{
    if n < evs.len() {
        assert(evs.drop_last().take(n) =~= evs.take(n));
        lemma_run_fails(evs.drop_last(), n);
    } else {
        assert(evs.take(n) =~= evs);
    }
}

} // verus!
