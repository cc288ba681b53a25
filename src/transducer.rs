//! The event-driven transducer from XML structure to bracket notation.
use vstd::prelude::*;
use vstd::string::StringExecFns;
use crate::attrs::{Attr, keys_identify, lemma_sort_ignores_input_order, sort_attrs, sort_by_key};
use crate::escape::{escape, safe_trans};

verus! {

/// The number of completed records between two progress notifications.
pub const PROGRESS_EVERY: u64 = 100000;

/// An element's raw name and attributes, as the tokenizer gives them.
pub struct Element {
    pub name: Vec<u8>,
    pub attrs: Vec<Attr>,
}

/// One structural event of an XML document.
pub enum Event {
    /// An opening tag.
    Start(Element),
    /// A self-closing tag, the same as an opening tag at once closed.
    Empty(Element),
    /// Character data, still escaped as it stands in the document.
    Text(Vec<u8>),
    /// A closing tag.
    End,
    /// The end of the document.
    Eof,
    /// Anything else (comments, declarations, ...), which is skipped.
    Other,
}

/// Why an event could not be turned into bracket notation.
#[derive(Clone, Copy, Debug, PartialEq, Eq, Structural)]
pub enum Fault {
    /// An element name, attribute key or attribute value is not UTF-8.
    Decode,
    /// Character data is not UTF-8 or holds a malformed escape.
    Unescape,
}

/// What the UTF-8 decoding of a byte sequence gives: `None` for bytes that
/// are not UTF-8.
pub uninterp spec fn utf8_decode(b: Seq<u8>) -> Option<Seq<char>>;

/// What resolving the XML escapes (`&amp;`, `&#38;`, ...) of a text gives:
/// `None` for a malformed or unknown escape.
pub uninterp spec fn xml_unescape(s: Seq<char>) -> Option<Seq<char>>;

/// Relies on `std::str::from_utf8`: the bytes as text, when they are UTF-8;
/// bytes that are all ASCII are each their own character.
#[verifier::external_body]
fn decode_utf8(b: &Vec<u8>) -> (r: Option<String>)
    ensures
        match r {
            Some(t) => utf8_decode(b@) == Some(t@),
            None => utf8_decode(b@) is None,
        },
        (forall|i: int| 0 <= i < b@.len() ==> b@[i] < 128) ==> r is Some && r->0@ == b@.map_values(
            |c: u8| c as char,
        ),
{
    std::str::from_utf8(b.as_slice()).ok().map(String::from)
}

/// Relies on `quick_xml::escape::unescape`: the text with its predefined and
/// character escapes resolved; a text without `&` comes back unchanged.
#[verifier::external_body]
fn unescape_entities(s: &String) -> (r: Option<String>)
    ensures
        match r {
            Some(t) => xml_unescape(s@) == Some(t@),
            None => xml_unescape(s@) is None,
        },
        !s@.contains('&') ==> r is Some && r->0@ == s@,
{
    quick_xml::escape::unescape(s.as_str()).ok().map(|c| c.into_owned())
}

/// The text that raw character data stands for.
pub open spec fn text_content(raw: Seq<u8>) -> Option<Seq<char>> {
    match utf8_decode(raw) {
        Some(s) => xml_unescape(s),
        None => None,
    }
}

/// One attribute in bracket notation: `{key{value}}`.
pub open spec fn render_attr(a: Attr) -> Option<Seq<char>> {
    match (utf8_decode(a.key@), utf8_decode(a.value@)) {
        (Some(k), Some(v)) => Some(
            seq!['{'] + escape(k) + seq!['{'] + escape(v) + seq!['}', '}'],
        ),
        _ => None,
    }
}

/// Attributes in bracket notation, one after the other.
pub open spec fn render_attrs(s: Seq<Attr>) -> Option<Seq<char>>
    decreases s.len(),
{
    if s.len() == 0 {
        Some(Seq::empty())
    } else {
        match (render_attrs(s.drop_last()), render_attr(s.last())) {
            (Some(p), Some(t)) => Some(p + t),
            _ => None,
        }
    }
}

/// The opening of an element in bracket notation: a brace, its name, then
/// its attributes in ascending order of their keys.
pub open spec fn render_open(e: Element) -> Option<Seq<char>> {
    match (utf8_decode(e.name@), render_attrs(sort_attrs(e.attrs@))) {
        (Some(n), Some(a)) => Some(seq!['{'] + escape(n) + a),
        _ => None,
    }
}

/// The state of a conversion: nesting depth, completed records, the text
/// written so far, and the record counts at which progress was reported.
pub struct State {
    pub depth: int,
    pub records: int,
    pub output: Seq<char>,
    pub progress: Seq<int>,
}

/// The state after an opening tag.
pub open spec fn open_element(st: State, e: Element) -> Result<State, Fault> {
    if st.depth + 1 > 1 {
        match render_open(e) {
            Some(t) => Ok(State { depth: st.depth + 1, output: st.output + t, ..st }),
            None => Err(Fault::Decode),
        }
    } else {
        Ok(State { depth: st.depth + 1, ..st })
    }
}

/// The state after a closing tag.
pub open spec fn close_element(st: State) -> State {
    let out = if st.depth > 1 { st.output + seq!['}'] } else { st.output };
    if st.depth - 1 == 1 {
        let n = st.records + 1;
        State {
            depth: 1,
            records: n,
            output: out + seq!['\n'],
            progress: if n % (PROGRESS_EVERY as int) == 0 { st.progress.push(n) } else { st.progress },
        }
    } else {
        State { depth: st.depth - 1, output: out, ..st }
    }
}

/// The state after one event, or the fault that stops the conversion.
pub open spec fn next_state(st: State, ev: Event) -> Result<State, Fault> {
    match ev {
        Event::Start(e) => open_element(st, e),
        Event::Empty(e) => match open_element(st, e) {
            Ok(s) => Ok(close_element(s)),
            Err(f) => Err(f),
        },
        Event::Text(raw) => if st.depth > 1 {
            match text_content(raw@) {
                Some(t) => Ok(State { output: st.output + seq!['{'] + escape(t) + seq!['}'], ..st }),
                None => Err(Fault::Unescape),
            }
        } else {
            Ok(st)
        },
        Event::End => Ok(close_element(st)),
        _ => Ok(st),
    }
}

/// The state before any event.
pub open spec fn initial_state() -> State {
    State { depth: 0, records: 0, output: Seq::empty(), progress: Seq::empty() }
}

/// The state after a whole sequence of events, or the first fault.
pub open spec fn run(evs: Seq<Event>) -> Result<State, Fault>
    decreases evs.len(),
{
    if evs.len() == 0 {
        Ok(initial_state())
    } else {
        match run(evs.drop_last()) {
            Ok(st) => next_state(st, evs.last()),
            Err(f) => Err(f),
        }
    }
}

/// A conversion in progress: the running counters and the text written.
pub struct Transducer {
    pub depth: i64,
    pub records: u64,
    pub output: String,
    pub progress: Vec<u64>,
}

impl Transducer {
    pub open spec fn state(&self) -> State {
        State {
            depth: self.depth as int,
            records: self.records as int,
            output: self.output@,
            progress: self.progress@.map_values(|p: u64| p as int),
        }
    }

    /// Whether one more event can be taken without a counter overflowing.
    pub open spec fn has_room(&self) -> bool {
        i64::MIN + 2 <= self.depth <= i64::MAX - 2 && self.records < u64::MAX
    }

    /// A conversion that has seen no event.
    pub fn new() -> (r: Transducer)
        ensures
            r.state() == initial_state(),
    {
        let r = Transducer { depth: 0, records: 0, output: String::new(), progress: Vec::new() };
        proof {
            assert(r.state().progress =~= Seq::<int>::empty());
        }
        r
    }

    /// Hands over the text written so far and starts the next text empty;
    /// the counters are kept.
    pub fn take_output(&mut self) -> (r: String)
        ensures
            r@ == old(self).output@,
            final(self).output@ == Seq::<char>::empty(),
            final(self).depth == old(self).depth,
            final(self).records == old(self).records,
            final(self).progress@ == old(self).progress@,
    {
        let mut r = String::new();
        std::mem::swap(&mut r, &mut self.output);
        r
    }

    /// Takes one event: writes what it stands for and updates the counters.
    pub fn step(&mut self, ev: Event) -> (r: Result<(), Fault>)
        requires
            old(self).has_room(),
        ensures
            match next_state(old(self).state(), ev) {
                Ok(st) => r is Ok && final(self).state() == st,
                Err(f) => r == Err::<(), Fault>(f),
            },
    {
        match ev {
            Event::Start(e) => self.open(e),
            Event::Empty(e) => {
                match self.open(e) {
                    Ok(()) => {
                        self.close();
                        Ok(())
                    },
                    Err(f) => Err(f),
                }
            },
            Event::Text(raw) => {
                if self.depth > 1 {
                    self.write_text(&raw)
                } else {
                    Ok(())
                }
            },
            Event::End => {
                self.close();
                Ok(())
            },
            _ => Ok(()),
        }
    }

    fn write_text(&mut self, raw: &Vec<u8>) -> (r: Result<(), Fault>)
        ensures
            match text_content(raw@) {
                Some(t) => r is Ok && final(self).state() == (State {
                    output: old(self).output@ + seq!['{'] + escape(t) + seq!['}'],
                    ..old(self).state()
                }),
                None => r == Err::<(), Fault>(Fault::Unescape),
            },
    {
        let decoded = match decode_utf8(raw) {
            Some(d) => d,
            None => return Err(Fault::Unescape),
        };
        let text = match unescape_entities(&decoded) {
            Some(t) => t,
            None => return Err(Fault::Unescape),
        };
        let ghost before = self.output@;
        self.output.append("{");
        self.output.append(safe_trans(text).as_str());
        self.output.append("}");
        proof {
            reveal_strlit("{");
            reveal_strlit("}");
            assert(self.output@ =~= before + seq!['{'] + escape(text@) + seq!['}']);
        }
        Ok(())
    }

    fn open(&mut self, e: Element) -> (r: Result<(), Fault>)
        requires
            old(self).has_room(),
        ensures
            match open_element(old(self).state(), e) {
                Ok(st) => r is Ok && final(self).state() == st,
                Err(f) => r == Err::<(), Fault>(f),
            },
            final(self).depth == old(self).depth + 1,
            final(self).records == old(self).records,
    {
        self.depth = self.depth + 1;
        if self.depth > 1 {
            self.write_open(e)
        } else {
            Ok(())
        }
    }

    fn close(&mut self)
        requires
            i64::MIN < old(self).depth,
            old(self).records < u64::MAX,
        ensures
            final(self).state() == close_element(old(self).state()),
    {
        let ghost st = self.state();
        if self.depth > 1 {
            self.output.append("}");
            proof { reveal_strlit("}"); }
        }
        self.depth = self.depth - 1;
        if self.depth == 1 {
            self.output.append("\n");
            proof { reveal_strlit("\n"); }
            self.records = self.records + 1;
            if self.records % PROGRESS_EVERY == 0 {
                self.progress.push(self.records);
            }
        }
        proof {
            let n = st.records + 1;
            let out = if st.depth > 1 { st.output + seq!['}'] } else { st.output };
            if st.depth - 1 == 1 {
                assert(self.output@ =~= out + seq!['\n']);
                if n % (PROGRESS_EVERY as int) == 0 {
                    assert(self.state().progress =~= st.progress.push(n));
                } else {
                    assert(self.state().progress =~= st.progress);
                }
            } else {
                assert(self.output@ =~= out);
                assert(self.state().progress =~= st.progress);
            }
        }
    }

    fn write_open(&mut self, e: Element) -> (r: Result<(), Fault>)
        ensures
            match render_open(e) {
                Some(t) => r is Ok && final(self).output@ == old(self).output@ + t,
                None => r == Err::<(), Fault>(Fault::Decode) && final(self).output@ == old(self).output@,
            },
            final(self).depth == old(self).depth,
            final(self).records == old(self).records,
            final(self).progress == old(self).progress,
    {
        let ghost e0 = e;
        let Element { name: raw_name, attrs } = e;
        assert(raw_name@ == e0.name@ && attrs@ == e0.attrs@);
        let name = match decode_utf8(&raw_name) {
            Some(n) => n,
            None => return Err(Fault::Decode),
        };
        let sorted = sort_by_key(attrs);
        let ghost s = sorted@;
        let mut text = String::new();
        text.append("{");
        proof { reveal_strlit("{"); }
        let esc = safe_trans(name);
        text.append(esc.as_str());
        let mut i: usize = 0;
        while i < sorted.len()
            invariant
                s == sorted@,
                e0 == e,
                s == sort_attrs(e0.attrs@),
                0 <= i <= s.len(),
                render_attrs(s.take(i as int)) is Some,
                text@ == seq!['{'] + escape(utf8_decode(e0.name@)->0) + render_attrs(s.take(i as int))->0,
            decreases s.len() - i,
        {
            let a = &sorted[i];
            proof {
                assert(s.take(i + 1).drop_last() == s.take(i as int));
                assert(s.take(i + 1).last() == s[i as int]);
            }
            let k = match decode_utf8(&a.key) {
                Some(k) => k,
                None => {
                    proof {
                        assert(s[i as int] == *a);
                        assert(render_attr(s[i as int]) is None);
                        lemma_render_attrs_fails(s, i as int + 1);
                        assert(render_open(e0) is None);
                    }
                    return Err(Fault::Decode);
                },
            };
            let v = match decode_utf8(&a.value) {
                Some(v) => v,
                None => {
                    proof {
                        assert(s[i as int] == *a);
                        assert(render_attr(s[i as int]) is None);
                        lemma_render_attrs_fails(s, i as int + 1);
                        assert(render_open(e0) is None);
                    }
                    return Err(Fault::Decode);
                },
            };
            let ghost before = text@;
            text.append("{");
            text.append(safe_trans(k).as_str());
            text.append("{");
            text.append(safe_trans(v).as_str());
            text.append("}}");
            proof {
                reveal_strlit("{");
                reveal_strlit("}}");
                let t = render_attr(s[i as int])->0;
                assert(t == seq!['{'] + escape(k@) + seq!['{'] + escape(v@) + seq!['}', '}']);
                assert(text@ =~= before + t);
                assert(render_attrs(s.take(i + 1)) == Some(render_attrs(s.take(i as int))->0 + t));
            }
            i = i + 1;
        }
        proof {
            assert(s.take(s.len() as int) == s);
        }
        self.output.append(text.as_str());
        Ok(())
    }
}

/// Two opening tags with the same name and the same attributes, given in
/// any order, open their elements alike, provided no two different
/// attributes share a key.
pub proof fn lemma_open_ignores_attribute_order(e1: Element, e2: Element)
    requires
        e1.name@ == e2.name@,
        e1.attrs@.to_multiset() == e2.attrs@.to_multiset(),
        keys_identify(e1.attrs@.to_multiset()),
    ensures
        render_open(e1) == render_open(e2),
{
    lemma_sort_ignores_input_order(e1.attrs@, e2.attrs@);
}

/// The record counts at which progress is reported once `n` records are
/// complete: every multiple of the reporting interval up to `n`.
pub open spec fn progress_marks(n: int) -> Seq<int> {
    Seq::new((n / PROGRESS_EVERY as int) as nat, |k: int| (k + 1) * PROGRESS_EVERY as int)
}

/// After any event stream that converts without a fault, progress has been
/// reported exactly at the multiples of the reporting interval up to the
/// number of records completed, once each.
pub proof fn lemma_progress_marks(evs: Seq<Event>)
    ensures
        run(evs) is Ok ==> run(evs)->Ok_0.records >= 0 && run(evs)->Ok_0.progress == progress_marks(
            run(evs)->Ok_0.records,
        ),
    decreases evs.len(),
{
    if evs.len() == 0 {
        assert(progress_marks(0) =~= Seq::<int>::empty());
    } else {
        lemma_progress_marks(evs.drop_last());
        if run(evs.drop_last()) is Ok {
            let st = run(evs.drop_last())->Ok_0;
            let n = st.records + 1;
            let p = PROGRESS_EVERY as int;
            if n % p == 0 {
                assert(n / p == st.records / p + 1);
                assert(progress_marks(n) =~= progress_marks(st.records).push(n));
            } else {
                assert(n / p == st.records / p);
                assert(progress_marks(n) =~= progress_marks(st.records));
            }
        }
    }
}

proof fn lemma_render_attrs_fails(s: Seq<Attr>, n: int)
    requires
        0 < n <= s.len(),
        render_attr(s[n - 1]) is None,
    ensures
        render_attrs(s) is None,
    decreases s.len(),
{
    if n < s.len() {
        lemma_render_attrs_fails(s.drop_last(), n);
    }
}

} // verus!
