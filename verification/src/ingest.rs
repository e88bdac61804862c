//! Applying compiled definitions to one line: every definition is
//! evaluated against every line; each match yields one event whose
//! attributes are extracted by the definition's attribute patterns.

use vstd::prelude::*;
use vstd::string::StringExecFns;
use crate::event::{Event, EventView};
use crate::patterns::{re_captures, re_match, re_source, regex_captures, regex_is_match, EventPattern, EventPatternView};
use crate::codec::{lemma_key_injective, spec_key, spec_serialize};
use crate::store::{EventStore, StoreError};

verus! {

/// The separator written between capture group values.
pub open spec fn spec_sep() -> Seq<char> {
    seq![',', ' ']
}

/// Character sequences joined with the separator, in order.
pub open spec fn spec_join(parts: Seq<Seq<char>>) -> Seq<char>
    decreases parts.len(),
{
    if parts.len() == 0 {
        Seq::empty()
    } else if parts.len() == 1 {
        parts[0]
    } else {
        parts[0] + spec_sep() + spec_join(parts.drop_first())
    }
}

/// The groups that took part in the match, in group order.
pub open spec fn spec_present(groups: Seq<Option<Seq<char>>>) -> Seq<Seq<char>>
    decreases groups.len(),
{
    if groups.len() == 0 {
        Seq::empty()
    } else {
        match groups[0] {
            Some(g) => seq![g] + spec_present(groups.drop_first()),
            None => spec_present(groups.drop_first()),
        }
    }
}

/// The value extracted for one attribute pattern on a line: the capture
/// groups joined with the separator when the pattern matches, absent
/// when it does not.
pub open spec fn spec_attr_value(pat: Seq<char>, line: Seq<char>) -> Option<Seq<char>> {
    match re_captures(pat, line) {
        Some(groups) => Some(spec_join(spec_present(groups))),
        None => None,
    }
}

/// The attribute pairs a line yields under a list of attribute
/// patterns: one pair per pattern that matches, in listed order; a
/// pattern that does not match contributes no pair at all.
pub open spec fn spec_extract(line: Seq<char>, attrs: Seq<(Seq<char>, Seq<char>)>) -> Seq<
    (Seq<char>, Seq<char>),
>
    decreases attrs.len(),
{
    if attrs.len() == 0 {
        Seq::empty()
    } else {
        let rest = spec_extract(line, attrs.drop_first());
        match spec_attr_value(attrs[0].1, line) {
            Some(v) => seq![(attrs[0].0, v)] + rest,
            None => rest,
        }
    }
}

/// The name-and-event pairs one line produces under a definition list:
/// one event per definition whose line pattern matches, in definition
/// order, each carrying the extracted attributes.
pub open spec fn spec_process(line: Seq<char>, defs: Seq<EventPatternView>, ts: u64) -> Seq<
    (Seq<char>, EventView),
>
    decreases defs.len(),
{
    if defs.len() == 0 {
        Seq::empty()
    } else {
        let rest = spec_process(line, defs.drop_first(), ts);
        if re_match(defs[0].pattern, line) {
            seq![
                (
                    defs[0].event,
                    EventView {
                        timestamp: ts,
                        attributes: spec_extract(line, defs[0].attribute_patterns),
                    },
                ),
            ] + rest
        } else {
            rest
        }
    }
}

proof fn lemma_join_snoc(p: Seq<Seq<char>>, s: Seq<char>)
    ensures
        spec_join(p.push(s)) == if p.len() == 0 {
            s
        } else {
            spec_join(p) + spec_sep() + s
        },
    decreases p.len(),
{
    if p.len() == 0 {
        assert(p.push(s)[0] == s);
        assert(spec_join(p.push(s)) == s);
    } else if p.len() == 1 {
        assert(p.push(s)[0] == p[0]);
        assert(p.push(s).drop_first() =~= seq![s]);
        assert(spec_join(seq![s]) == s);
    } else {
        assert(p.push(s)[0] == p[0]);
        assert(p.push(s).drop_first() =~= p.drop_first().push(s));
        lemma_join_snoc(p.drop_first(), s);
        assert(spec_join(p.push(s)) =~= spec_join(p) + spec_sep() + s);
    }
}

proof fn lemma_present_snoc(g: Seq<Option<Seq<char>>>, x: Option<Seq<char>>)
    ensures
        spec_present(g.push(x)) == (match x {
            Some(s) => spec_present(g).push(s),
            None => spec_present(g),
        }),
    decreases g.len(),
{
    if g.len() == 0 {
        assert(g.push(x)[0] == x);
        assert(g.push(x).drop_first() =~= g);
        match x {
            Some(s) => {
                assert(seq![s] + spec_present(g) =~= spec_present(g).push(s));
            },
            None => {},
        }
    } else {
        assert(g.push(x)[0] == g[0]);
        assert(g.push(x).drop_first() =~= g.drop_first().push(x));
        lemma_present_snoc(g.drop_first(), x);
        match g[0] {
            Some(h) => {
                match x {
                    Some(s) => {
                        assert(seq![h] + spec_present(g.drop_first()).push(s)
                            =~= (seq![h] + spec_present(g.drop_first())).push(s));
                    },
                    None => {},
                }
            },
            None => {},
        }
    }
}

/// Joins the groups that took part in a match with the separator, in
/// group order.
fn join_present(groups: &Vec<Option<String>>) -> (r: String)
    ensures
        r@ == spec_join(spec_present(groups.deep_view())),
{
    let mut out = String::new();
    let mut first = true;
    let mut i: usize = 0;
    proof {
        assert(groups.deep_view().take(0) =~= Seq::<Option<Seq<char>>>::empty());
    }
    while i < groups.len()
        invariant
            i <= groups@.len(),
            groups.deep_view().len() == groups@.len(),
            out@ == spec_join(spec_present(groups.deep_view().take(i as int))),
            first <==> spec_present(groups.deep_view().take(i as int)).len() == 0,
        decreases groups@.len() - i,
    {
        let ghost prefix = groups.deep_view().take(i as int);
        proof {
            assert(groups.deep_view()[i as int] == (match groups@[i as int] {
                Some(s) => Some(s@),
                None => None,
            }));
            assert(prefix.push(groups.deep_view()[i as int]) =~= groups.deep_view().take(
                i as int + 1,
            ));
            lemma_present_snoc(prefix, groups.deep_view()[i as int]);
        }
        match &groups[i] {
            Some(s) => {
                proof {
                    lemma_join_snoc(spec_present(prefix), s@);
                }
                if !first {
                    out.append(", ");
                    proof {
                        reveal_strlit(", ");
                        assert(", "@ =~= spec_sep());
                    }
                }
                out.append(s.as_str());
                first = false;
            },
            None => {},
        }
        i += 1;
    }
    proof {
        assert(groups.deep_view().take(groups.deep_view().len() as int) =~= groups.deep_view());
    }
    out
}

/// The pattern texts of a compiled attribute list, beside their names.
pub open spec fn attr_views(attrs: Seq<(String, regex::Regex)>) -> Seq<(Seq<char>, Seq<char>)> {
    Seq::new(attrs.len(), |i: int| (attrs[i].0@, re_source(attrs[i].1)))
}

proof fn lemma_extract_snoc(line: Seq<char>, p: Seq<(Seq<char>, Seq<char>)>, x: (
    Seq<char>,
    Seq<char>,
))
    ensures
        spec_extract(line, p.push(x)) == spec_extract(line, p) + (match spec_attr_value(
            x.1,
            line,
        ) {
            Some(v) => seq![(x.0, v)],
            None => Seq::<(Seq<char>, Seq<char>)>::empty(),
        }),
    decreases p.len(),
{
    if p.len() == 0 {
        assert(p.push(x)[0] == x);
        assert(p.push(x).drop_first() =~= p);
        match spec_attr_value(x.1, line) {
            Some(v) => {
                assert(spec_extract(line, p.push(x)) =~= spec_extract(line, p) + seq![(x.0, v)]);
            },
            None => {
                assert(spec_extract(line, p.push(x)) =~= spec_extract(line, p) + Seq::<
                    (Seq<char>, Seq<char>),
                >::empty());
            },
        }
    } else {
        assert(p.push(x)[0] == p[0]);
        assert(p.push(x).drop_first() =~= p.drop_first().push(x));
        lemma_extract_snoc(line, p.drop_first(), x);
        match spec_attr_value(p[0].1, line) {
            Some(v0) => {
                assert(spec_extract(line, p.push(x)) =~= spec_extract(line, p) + (
                match spec_attr_value(x.1, line) {
                    Some(v) => seq![(x.0, v)],
                    None => Seq::<(Seq<char>, Seq<char>)>::empty(),
                }));
            },
            None => {
                assert(spec_extract(line, p.push(x)) =~= spec_extract(line, p) + (
                match spec_attr_value(x.1, line) {
                    Some(v) => seq![(x.0, v)],
                    None => Seq::<(Seq<char>, Seq<char>)>::empty(),
                }));
            },
        }
    }
}

/// Extracts the attributes a line yields under a compiled attribute
/// list: a pair per pattern that matches, nothing for one that does not.
pub fn extract_attributes(line: &str, attrs: &Vec<(String, regex::Regex)>) -> (r: Vec<
    (String, String),
>)
    ensures
        r.deep_view() == spec_extract(line@, attr_views(attrs@)),
{
    let mut out: Vec<(String, String)> = Vec::new();
    let mut i: usize = 0;
    proof {
        assert(attr_views(attrs@).take(0) =~= Seq::<(Seq<char>, Seq<char>)>::empty());
        assert(out.deep_view() =~= spec_extract(line@, attr_views(attrs@).take(0)));
    }
    while i < attrs.len()
        invariant
            i <= attrs@.len(),
            out.deep_view() == spec_extract(line@, attr_views(attrs@).take(i as int)),
        decreases attrs@.len() - i,
    {
        let ghost prefix = attr_views(attrs@).take(i as int);
        let ghost cur = attr_views(attrs@)[i as int];
        proof {
            assert(prefix.push(cur) =~= attr_views(attrs@).take(i as int + 1));
            lemma_extract_snoc(line@, prefix, cur);
        }
        let pair = &attrs[i];
        match regex_captures(&pair.1, line) {
            Some(groups) => {
                let joined = join_present(&groups);
                let name = pair.0.clone();
                let ghost old_out = out.deep_view();
                out.push((name, joined));
                proof {
                    assert(out.deep_view() =~= old_out.push((pair.0@, joined@)));
                    assert(out.deep_view() =~= spec_extract(
                        line@,
                        attr_views(attrs@).take(i as int + 1),
                    ));
                }
            },
            None => {},
        }
        i += 1;
    }
    proof {
        assert(attr_views(attrs@).take(attrs@.len() as int) =~= attr_views(attrs@));
    }
    out
}

proof fn lemma_process_snoc(line: Seq<char>, p: Seq<EventPatternView>, x: EventPatternView, ts: u64)
    ensures
        spec_process(line, p.push(x), ts) == spec_process(line, p, ts) + (if re_match(
            x.pattern,
            line,
        ) {
            seq![
                (x.event, EventView { timestamp: ts, attributes: spec_extract(line, x.attribute_patterns) }),
            ]
        } else {
            Seq::<(Seq<char>, EventView)>::empty()
        }),
    decreases p.len(),
{
    if p.len() == 0 {
        assert(p.push(x)[0] == x);
        assert(p.push(x).drop_first() =~= p);
        assert(spec_process(line, p.push(x), ts) =~= spec_process(line, p, ts) + (if re_match(
            x.pattern,
            line,
        ) {
            seq![
                (x.event, EventView { timestamp: ts, attributes: spec_extract(line, x.attribute_patterns) }),
            ]
        } else {
            Seq::<(Seq<char>, EventView)>::empty()
        }));
    } else {
        assert(p.push(x)[0] == p[0]);
        assert(p.push(x).drop_first() =~= p.drop_first().push(x));
        lemma_process_snoc(line, p.drop_first(), x, ts);
        assert(spec_process(line, p.push(x), ts) =~= spec_process(line, p, ts) + (if re_match(
            x.pattern,
            line,
        ) {
            seq![
                (x.event, EventView { timestamp: ts, attributes: spec_extract(line, x.attribute_patterns) }),
            ]
        } else {
            Seq::<(Seq<char>, EventView)>::empty()
        }));
    }
}

/// The views of a list of compiled definitions.
pub open spec fn def_views(defs: Seq<EventPattern>) -> Seq<EventPatternView> {
    Seq::new(defs.len(), |i: int| defs[i]@)
}

/// Evaluates every definition against one line with the given
/// timestamp: one named event per matching definition, in definition
/// order, each with the attributes its patterns extract.
pub fn process_line(line: &str, defs: &Vec<EventPattern>, timestamp: u64) -> (r: Vec<
    (String, Event),
>)
    ensures
        r.deep_view() == spec_process(line@, def_views(defs@), timestamp),
{
    let mut out: Vec<(String, Event)> = Vec::new();
    let mut i: usize = 0;
    proof {
        assert(def_views(defs@).take(0) =~= Seq::<EventPatternView>::empty());
        assert(out.deep_view() =~= spec_process(line@, def_views(defs@).take(0), timestamp));
    }
    while i < defs.len()
        invariant
            i <= defs@.len(),
            out.deep_view() == spec_process(line@, def_views(defs@).take(i as int), timestamp),
        decreases defs@.len() - i,
    {
        let ghost prefix = def_views(defs@).take(i as int);
        let ghost cur = def_views(defs@)[i as int];
        proof {
            assert(prefix.push(cur) =~= def_views(defs@).take(i as int + 1));
            lemma_process_snoc(line@, prefix, cur, timestamp);
        }
        let def = &defs[i];
        if regex_is_match(&def.pattern, line) {
            let attributes = extract_attributes(line, &def.attribute_patterns);
            let name = def.event.clone();
            let ev = Event { timestamp, attributes };
            let ghost old_out = out.deep_view();
            proof {
                assert(cur.attribute_patterns =~= attr_views(def.attribute_patterns@));
                assert(ev@ == EventView {
                    timestamp,
                    attributes: spec_extract(line@, cur.attribute_patterns),
                });
            }
            out.push((name, ev));
            proof {
                assert(out.deep_view() =~= old_out.push((def.event@, ev@)));
                assert(out.deep_view() =~= spec_process(
                    line@,
                    def_views(defs@).take(i as int + 1),
                    timestamp,
                ));
            }
        }
        i += 1;
    }
    proof {
        assert(def_views(defs@).take(defs@.len() as int) =~= def_views(defs@));
    }
    out
}

/// The number of definitions whose line pattern matches the line.
pub open spec fn matching_count(line: Seq<char>, defs: Seq<EventPatternView>) -> nat
    decreases defs.len(),
{
    if defs.len() == 0 {
        0
    } else {
        (if re_match(defs[0].pattern, line) {
            1nat
        } else {
            0nat
        }) + matching_count(line, defs.drop_first())
    }
}

/// Some definition of the list matches the line and yields exactly
/// this named event.
pub open spec fn produced_from(
    line: Seq<char>,
    defs: Seq<EventPatternView>,
    ts: u64,
    entry: (Seq<char>, EventView),
) -> bool {
    exists|i: int|
        {
            &&& 0 <= i < defs.len()
            &&& re_match((#[trigger] defs[i]).pattern, line)
            &&& entry == (
                defs[i].event,
                EventView {
                    timestamp: ts,
                    attributes: spec_extract(line, defs[i].attribute_patterns),
                },
            )
        }
}

/// Law: one line produces exactly one event per definition whose line
/// pattern matches it — a line matching several definitions yields one
/// event in each of their namespaces — and every produced entry is the
/// event of one matching definition, with the line's timestamp and the
/// attributes that definition extracts from the line.
pub proof fn lemma_event_per_match(line: Seq<char>, defs: Seq<EventPatternView>, ts: u64)
    ensures
        spec_process(line, defs, ts).len() == matching_count(line, defs),
        forall|j: int|
            0 <= j < spec_process(line, defs, ts).len() ==> produced_from(
                line,
                defs,
                ts,
                #[trigger] spec_process(line, defs, ts)[j],
            ),
    decreases defs.len(),
{
    if defs.len() > 0 {
        lemma_event_per_match(line, defs.drop_first(), ts);
        let dd = defs.drop_first();
        let rest = spec_process(line, dd, ts);
        assert forall|j: int| 0 <= j < spec_process(line, defs, ts).len() implies produced_from(
            line,
            defs,
            ts,
            #[trigger] spec_process(line, defs, ts)[j],
        ) by {
            let head_matches = re_match(defs[0].pattern, line);
            if head_matches && j == 0 {
                assert(spec_process(line, defs, ts)[0] == (
                    defs[0].event,
                    EventView {
                        timestamp: ts,
                        attributes: spec_extract(line, defs[0].attribute_patterns),
                    },
                ));
                assert(produced_from(line, defs, ts, spec_process(line, defs, ts)[0]));
            } else {
                let jj = if head_matches {
                    j - 1
                } else {
                    j
                };
                assert(spec_process(line, defs, ts)[j] == rest[jj]);
                assert(produced_from(line, dd, ts, rest[jj]));
                let i0 = choose|i: int|
                    {
                        &&& 0 <= i < dd.len()
                        &&& re_match((#[trigger] dd[i]).pattern, line)
                        &&& rest[jj] == (
                            dd[i].event,
                            EventView {
                                timestamp: ts,
                                attributes: spec_extract(line, dd[i].attribute_patterns),
                            },
                        )
                    };
                assert(dd[i0] == defs[i0 + 1]);
                assert(re_match(defs[i0 + 1].pattern, line));
                assert(produced_from(line, defs, ts, spec_process(line, defs, ts)[j]));
            }
        }
    }
}

/// Law: an attribute whose pattern does not match the line is wholly
/// absent from the extracted attributes — no pair under its name at
/// all — provided attribute names are distinct.
pub proof fn lemma_absent_attribute(line: Seq<char>, attrs: Seq<(Seq<char>, Seq<char>)>, i: int)
    requires
        0 <= i < attrs.len(),
        re_captures(attrs[i].1, line) is None,
        forall|j: int| 0 <= j < attrs.len() && j != i ==> (#[trigger] attrs[j]).0 != attrs[i].0,
    ensures
        forall|j: int|
            0 <= j < spec_extract(line, attrs).len() ==> (#[trigger] spec_extract(line, attrs)[j]).0
                != attrs[i].0,
    decreases attrs.len(),
{
    let ex = spec_extract(line, attrs);
    let rest = spec_extract(line, attrs.drop_first());
    if i == 0 {
        lemma_extract_names(line, attrs.drop_first());
        assert(ex == rest);
        assert forall|j: int| 0 <= j < ex.len() implies (#[trigger] ex[j]).0 != attrs[i].0 by {
            let i0 = choose|k: int|
                0 <= k < attrs.drop_first().len() && (#[trigger] attrs.drop_first()[k]).0
                    == rest[j].0;
            assert(attrs.drop_first()[i0] == attrs[i0 + 1]);
        }
    } else {
        lemma_absent_attribute(line, attrs.drop_first(), i - 1);
        assert(attrs.drop_first()[i - 1] == attrs[i]);
        assert forall|j: int| 0 <= j < ex.len() implies (#[trigger] ex[j]).0 != attrs[i].0 by {
            match spec_attr_value(attrs[0].1, line) {
                Some(v) => {
                    if j == 0 {
                        assert(ex[0].0 == attrs[0].0);
                    } else {
                        assert(ex[j] == rest[j - 1]);
                    }
                },
                None => {
                    assert(ex[j] == rest[j]);
                },
            }
        }
    }
}

/// Every extracted pair carries the name of one of the attribute
/// patterns.
pub proof fn lemma_extract_names(line: Seq<char>, attrs: Seq<(Seq<char>, Seq<char>)>)
    ensures
        forall|j: int|
            0 <= j < spec_extract(line, attrs).len() ==> exists|k: int|
                0 <= k < attrs.len() && (#[trigger] attrs[k]).0 == (#[trigger] spec_extract(
                    line,
                    attrs,
                )[j]).0,
    decreases attrs.len(),
{
    let ex = spec_extract(line, attrs);
    if attrs.len() > 0 {
        lemma_extract_names(line, attrs.drop_first());
        let rest = spec_extract(line, attrs.drop_first());
        assert forall|j: int| 0 <= j < ex.len() implies exists|k: int|
            0 <= k < attrs.len() && (#[trigger] attrs[k]).0 == (#[trigger] spec_extract(
                line,
                attrs,
            )[j]).0 by {
            match spec_attr_value(attrs[0].1, line) {
                Some(v) => {
                    if j == 0 {
                        assert(attrs[0].0 == ex[0].0);
                    } else {
                        assert(ex[j] == rest[j - 1]);
                        let k0 = choose|k: int|
                            0 <= k < attrs.drop_first().len() && (#[trigger] attrs.drop_first()[k]).0
                                == rest[j - 1].0;
                        assert(attrs.drop_first()[k0] == attrs[k0 + 1]);
                    }
                },
                None => {
                    assert(ex[j] == rest[j]);
                    let k0 = choose|k: int|
                        0 <= k < attrs.drop_first().len() && (#[trigger] attrs.drop_first()[k]).0
                            == rest[j].0;
                    assert(attrs.drop_first()[k0] == attrs[k0 + 1]);
                },
            }
        }
    }
}


/// The line's produced events name this namespace.
pub open spec fn names_event(produced: Seq<(Seq<char>, EventView)>, m: Seq<char>) -> bool {
    exists|j: int| 0 <= j < produced.len() && (#[trigger] produced[j]).0 == m
}

/// Ingests one line: for each definition the line matches, that
/// definition's event is appended to the definition's namespace, at
/// consecutive sequence numbers in definition order. A line matching
/// nothing touches no storage and succeeds; a storage failure is fatal
/// for the line and reported, and even then only the namespaces the
/// line names can have changed.
pub fn ingest_line(
    store: &mut EventStore,
    line: &str,
    defs: &Vec<EventPattern>,
    timestamp: u64,
) -> (r: Result<(), StoreError>)
    ensures
        spec_process(line@, def_views(defs@), timestamp).len() == 0 ==> r is Ok,
        r is Ok ==> ({
            let produced = spec_process(line@, def_views(defs@), timestamp);
            &&& final(store).seq_no() == old(store).seq_no() + produced.len()
            &&& forall|j: int|
                0 <= j < produced.len() ==> final(store).contents(
                    (#[trigger] produced[j]).0,
                ).contains_pair(
                    spec_key(timestamp, (old(store).seq_no() + j) as u64),
                    spec_serialize(produced[j].1),
                )
            &&& forall|m: Seq<char>|
                !names_event(produced, m) ==> final(store).contents(m) == old(store).contents(m)
        }),
        r is Err ==> ({
            let produced = spec_process(line@, def_views(defs@), timestamp);
            &&& old(store).seq_no() <= final(store).seq_no() <= old(store).seq_no()
                + produced.len()
            &&& forall|m: Seq<char>|
                !names_event(produced, m) ==> final(store).contents(m) == old(store).contents(m)
        }),
{
    let events = process_line(line, defs, timestamp);
    let ghost produced = spec_process(line@, def_views(defs@), timestamp);
    let ghost seq0 = old(store).seq_no();
    let mut i: usize = 0;
    while i < events.len()
        invariant
            i <= events@.len(),
            events.deep_view() == produced,
            events@.len() == produced.len(),
            produced == spec_process(line@, def_views(defs@), timestamp),
            seq0 == old(store).seq_no(),
            store.seq_no() == seq0 + i,
            forall|j: int|
                0 <= j < i ==> store.contents((#[trigger] produced[j]).0).contains_pair(
                    spec_key(timestamp, (seq0 + j) as u64),
                    spec_serialize(produced[j].1),
                ),
            forall|m: Seq<char>|
                !names_event(produced, m) ==> store.contents(m) == old(store).contents(m),
        decreases events@.len() - i,
    {
        let pair = &events[i];
        proof {
            assert(produced[i as int] == events.deep_view()[i as int]);
            assert(events.deep_view()[i as int] == (pair.0@, pair.1@));
        }
        let ghost pre = *store;
        match store.insert(pair.0.as_str(), timestamp, &pair.1) {
            Ok(_) => {},
            Err(e) => {
                proof {
                    assert forall|m: Seq<char>| !names_event(produced, m) implies store.contents(
                        m,
                    ) == old(store).contents(m) by {
                        if produced[i as int].0 == m {
                            assert(names_event(produced, m));
                        }
                        assert(store.contents(m) == pre.contents(m));
                    }
                }
                return Err(e);
            },
        }
        proof {
            assert(store.contents(produced[i as int].0).contains_pair(
                spec_key(timestamp, (seq0 + i) as u64),
                spec_serialize(produced[i as int].1),
            ));
            assert forall|j: int| 0 <= j < i + 1 implies store.contents(
                (#[trigger] produced[j]).0,
            ).contains_pair(
                spec_key(timestamp, (seq0 + j) as u64),
                spec_serialize(produced[j].1),
            ) by {
                if j < i {
                    let kj = spec_key(timestamp, (seq0 + j) as u64);
                    let ki = spec_key(timestamp, (seq0 + i) as u64);
                    if produced[j].0 == produced[i as int].0 {
                        if kj == ki {
                            lemma_key_injective(
                                timestamp,
                                (seq0 + j) as u64,
                                timestamp,
                                (seq0 + i) as u64,
                            );
                        }
                        assert(store.contents(produced[j].0) == pre.contents(
                            produced[j].0,
                        ).insert(ki, spec_serialize(produced[i as int].1)));
                    } else {
                        assert(store.contents(produced[j].0) == pre.contents(produced[j].0));
                    }
                }
            }
            assert forall|m: Seq<char>| !names_event(produced, m) implies store.contents(m) == old(
                store,
            ).contents(m) by {
                if produced[i as int].0 == m {
                    assert(names_event(produced, m));
                }
                assert(store.contents(m) == pre.contents(m));
            }
        }
        i += 1;
    }
    proof {
        assert(events@.len() == produced.len());
    }
    Ok(())
}

} // verus!
