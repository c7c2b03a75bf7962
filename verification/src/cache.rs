//! The incremental-build cache: for each rule, the file signatures of its
//! last successful build, and the text format the cache is stored in.
use vstd::prelude::*;
use crate::graph::{lemma_name_index, name_index, sort_by_key, sorted_by};
use crate::text::{
    chars_eq, lemma_lex_irrefl, lemma_lex_trans, lex_less,
    find_char, lines_from, parse_u128, slice_vec, starts_with, string_of, strip_cr, trim_vec, chars_of, decimal_vec, lemma_join_push, lemma_lex_total, push_char, push_chars, lex_lt, clean_line, decimal, has_prefix, is_ws, join_lines, lemma_decimal_number, lemma_lines_join,
    lemma_next_index, lemma_trim_exact, lines, next_index, trim, written_number,
};

verus! {

/// The signatures recorded for one rule: (path, modification time in
/// nanoseconds) for each input and output file, sorted.
#[derive(Debug, Clone, PartialEq)]
pub struct CacheEntry {
    pub input_hashes: Vec<(String, u128)>,
    pub output_hashes: Vec<(String, u128)>,
}

pub struct EntryView {
    pub inputs: Seq<(Seq<char>, u128)>,
    pub outputs: Seq<(Seq<char>, u128)>,
}

pub open spec fn sig_view(p: (String, u128)) -> (Seq<char>, u128) {
    (p.0@, p.1)
}

pub open spec fn sigs(v: Seq<(String, u128)>) -> Seq<(Seq<char>, u128)> {
    v.map_values(|p: (String, u128)| sig_view(p))
}

impl View for CacheEntry {
    type V = EntryView;

    open spec fn view(&self) -> EntryView {
        EntryView { inputs: sigs(self.input_hashes@), outputs: sigs(self.output_hashes@) }
    }
}

/// Copies a signature list.
pub fn clone_sigs(v: &Vec<(String, u128)>) -> (r: Vec<(String, u128)>)
    ensures
        sigs(r@) == sigs(v@),
{
    let mut r: Vec<(String, u128)> = Vec::new();
    let mut i: usize = 0;
    while i < v.len()
        invariant
            i <= v@.len(),
            r@.len() == i,
            forall|j: int| 0 <= j < i ==> #[trigger] sig_view(r@[j]) == sig_view(v@[j]),
        decreases v@.len() - i,
    {
        r.push((v[i].0.clone(), v[i].1));
        i += 1;
    }
    assert(sigs(r@) =~= sigs(v@));
    r
}

/// Whether two signature lists are equal.
pub fn sigs_equal(a: &Vec<(String, u128)>, b: &Vec<(String, u128)>) -> (r: bool)
    ensures
        r == (sigs(a@) == sigs(b@)),
{
    if a.len() != b.len() {
        assert(sigs(a@).len() != sigs(b@).len());
        return false;
    }
    let mut i: usize = 0;
    while i < a.len()
        invariant
            a@.len() == b@.len(),
            i <= a@.len(),
            forall|j: int| 0 <= j < i ==> #[trigger] sig_view(a@[j]) == sig_view(b@[j]),
        decreases a@.len() - i,
    {
        if !(a[i].0 == b[i].0 && a[i].1 == b[i].1) {
            assert(sigs(a@)[i as int] != sigs(b@)[i as int]);
            return false;
        }
        i += 1;
    }
    assert(sigs(a@) =~= sigs(b@));
    true
}

impl CacheEntry {
    /// A copy of this entry.
    pub fn copy(&self) -> (r: CacheEntry)
        ensures
            r@ == self@,
    {
        CacheEntry {
            input_hashes: clone_sigs(&self.input_hashes),
            output_hashes: clone_sigs(&self.output_hashes),
        }
    }
}

/// The build cache: the entry of each rule that has been built.
#[derive(Debug, Clone)]
pub struct BuildCache {
    entries: Vec<(String, CacheEntry)>,
}

pub open spec fn entry_keys(v: Seq<(String, CacheEntry)>) -> Seq<Seq<char>> {
    v.map_values(|p: (String, CacheEntry)| p.0@)
}

pub open spec fn keys_distinct(k: Seq<Seq<char>>) -> bool {
    forall|i: int, j: int| 0 <= i < k.len() && 0 <= j < k.len() && i != j ==> #[trigger] k[i] != #[trigger] k[j]
}

/// In a list without repeats, the first position of each item is its only one.
proof fn lemma_distinct_index(ks: Seq<Seq<char>>, i: int)
    requires
        keys_distinct(ks),
        0 <= i < ks.len(),
    ensures
        name_index(ks, ks[i]) == i,
{
    lemma_name_index(ks, ks[i]);
    assert(ks.contains(ks[i]));
}

impl BuildCache {
    /// Well-formedness: no rule has two entries.
    pub closed spec fn wf(&self) -> bool {
        keys_distinct(entry_keys(self.entries@))
    }

    /// The entries, by rule name.
    pub closed spec fn spec_map(&self) -> Map<Seq<char>, EntryView> {
        let ks = entry_keys(self.entries@);
        Map::new(
            |k: Seq<char>| name_index(ks, k) >= 0,
            |k: Seq<char>| self.entries@[name_index(ks, k)].1@,
        )
    }

    /// An empty cache.
    pub fn new() -> (r: BuildCache)
        ensures
            r.wf(),
            r.spec_map() == Map::<Seq<char>, EntryView>::empty(),
    {
        let r = BuildCache { entries: Vec::new() };
        assert(r.spec_map() =~= Map::<Seq<char>, EntryView>::empty()) by {
            assert forall|k: Seq<char>| name_index(entry_keys(r.entries@), k) < 0 by {
                lemma_name_index(entry_keys(r.entries@), k);
            }
        }
        r
    }

    fn find(&self, name: &String) -> (r: Option<usize>)
        ensures
            match r {
                Some(i) => i < self.entries@.len() && i as int == name_index(entry_keys(self.entries@), name@),
                None => name_index(entry_keys(self.entries@), name@) == -1,
            },
    {
        let ghost ks = entry_keys(self.entries@);
        proof {
            lemma_name_index(ks, name@);
        }
        let mut i: usize = 0;
        while i < self.entries.len()
            invariant
                i <= self.entries@.len(),
                ks == entry_keys(self.entries@),
                forall|j: int| 0 <= j < i ==> #[trigger] ks[j] != name@,
                -1 <= name_index(ks, name@) < ks.len(),
                name_index(ks, name@) >= 0 ==> ks[name_index(ks, name@)] == name@,
                name_index(ks, name@) == -1 <==> !ks.contains(name@),
                forall|j: int| 0 <= j < name_index(ks, name@) ==> ks[j] != name@,
            decreases self.entries@.len() - i,
        {
            if self.entries[i].0 == *name {
                assert(ks[i as int] == name@);
                return Some(i);
            }
            i += 1;
        }
        None
    }

    /// The number of rules with an entry.
    pub fn len(&self) -> (r: usize)
        requires
            self.wf(),
        ensures
            r == self.spec_map().dom().len(),
    {
        proof {
            self.lemma_dom_len();
        }
        self.entries.len()
    }

    proof fn lemma_dom_len(&self)
        requires
            keys_distinct(entry_keys(self.entries@)),
        ensures
            self.spec_map().dom().finite(),
            self.spec_map().dom().len() == self.entries@.len(),
    {
        let ks = entry_keys(self.entries@);
        assert(self.spec_map().dom() =~= ks.to_set()) by {
            assert forall|k: Seq<char>| self.spec_map().dom().contains(k) <==> ks.to_set().contains(k) by {
                lemma_name_index(ks, k);
            }
        }
        assert(ks.no_duplicates());
        ks.unique_seq_to_set();
    }

    /// The entry of the rule `name`.
    pub fn get(&self, name: &str) -> (r: Option<&CacheEntry>)
        requires
            self.wf(),
        ensures
            match r {
                Some(e) => self.spec_map().contains_key(name@) && e@ == self.spec_map()[name@],
                None => !self.spec_map().contains_key(name@),
            },
    {
        let n = name.to_owned();
        match self.find(&n) {
            Some(i) => Some(&self.entries[i].1),
            None => None,
        }
    }

    /// Sets the entry of the rule `name`.
    pub fn insert(&mut self, name: String, entry: CacheEntry)
        requires
            old(self).wf(),
        ensures
            final(self).wf(),
            final(self).spec_map() == old(self).spec_map().insert(name@, entry@),
    {
        let ghost ks0 = entry_keys(self.entries@);
        let ghost e0 = self.entries@;
        let ghost old_map = self.spec_map();
        let ghost nm = name@;
        let ghost ev = entry@;
        match self.find(&name) {
            Some(i) => {
                proof {
                    lemma_name_index(ks0, nm);
                }
                self.entries.set(i, (name, entry));
                proof {
                    let ks = entry_keys(self.entries@);
                    assert(ks =~= ks0) by {
                        assert forall|j: int| 0 <= j < ks.len() implies ks[j] == ks0[j] by {
                            if j != i {
                                assert(self.entries@[j] == e0[j]);
                            }
                        }
                    }
                    assert(self.spec_map() =~= old_map.insert(nm, ev)) by {
                        assert forall|k: Seq<char>| #[trigger] self.spec_map().contains_key(k) <==> old_map.insert(nm, ev).contains_key(k) by {
                            lemma_name_index(ks0, k);
                        }
                        assert forall|k: Seq<char>| #[trigger] self.spec_map().contains_key(k) implies self.spec_map()[k] == old_map.insert(nm, ev)[k] by {
                            lemma_name_index(ks0, k);
                            let p = name_index(ks0, k);
                            if p != i {
                                assert(self.entries@[p] == e0[p]);
                                assert(k != nm);
                            }
                        }
                    }
                }
            },
            None => {
                self.entries.push((name, entry));
                proof {
                    let ks = entry_keys(self.entries@);
                    assert(ks =~= ks0.push(nm));
                    assert(ks.drop_last() =~= ks0);
                    lemma_name_index(ks0, nm);
                    assert forall|a: int, b: int| 0 <= a < ks.len() && 0 <= b < ks.len() && a != b implies #[trigger] ks[a] != #[trigger] ks[b] by {
                        if a == ks0.len() {
                            assert(ks0[b] == ks[b]);
                        } else if b == ks0.len() {
                            assert(ks0[a] == ks[a]);
                        } else {
                            assert(ks0[a] == ks[a] && ks0[b] == ks[b]);
                        }
                    }
                    assert(self.spec_map() =~= old_map.insert(nm, ev)) by {
                        assert forall|k: Seq<char>| #[trigger] self.spec_map().contains_key(k) <==> old_map.insert(nm, ev).contains_key(k) by {
                            lemma_name_index(ks0, k);
                        }
                        assert forall|k: Seq<char>| #[trigger] self.spec_map().contains_key(k) implies self.spec_map()[k] == old_map.insert(nm, ev)[k] by {
                            lemma_name_index(ks0, k);
                            let p = name_index(ks0, k);
                            if p >= 0 {
                                assert(self.entries@[p] == e0[p]);
                                assert(k != nm);
                            }
                        }
                    }
                }
            },
        }
    }

    /// Forgets the entry of the rule `name`, so that it is rebuilt.
    pub fn invalidate(&mut self, name: &str)
        requires
            old(self).wf(),
        ensures
            final(self).wf(),
            final(self).spec_map() == old(self).spec_map().remove(name@),
    {
        let n = name.to_owned();
        let ghost ks0 = entry_keys(self.entries@);
        let ghost old_map = self.spec_map();
        let ghost e0 = self.entries@;
        match self.find(&n) {
            Some(i) => {
                proof {
                    lemma_name_index(ks0, name@);
                }
                self.entries.remove(i);
                proof {
                    let ks = entry_keys(self.entries@);
                    assert(ks =~= ks0.remove(i as int));
                    assert(self.entries@ =~= e0.remove(i as int));
                    assert forall|a: int, b: int| 0 <= a < ks.len() && 0 <= b < ks.len() && a != b implies #[trigger] ks[a] != #[trigger] ks[b] by {
                        let a0 = if a < i { a } else { a + 1 };
                        let b0 = if b < i { b } else { b + 1 };
                        assert(ks[a] == ks0[a0]);
                        assert(ks[b] == ks0[b0]);
                    }
                    assert(self.spec_map() =~= old_map.remove(name@)) by {
                        assert forall|k: Seq<char>| #[trigger] self.spec_map().contains_key(k) <==> old_map.remove(name@).contains_key(k) by {
                            lemma_name_index(ks, k);
                            lemma_name_index(ks0, k);
                            if name_index(ks, k) >= 0 {
                                let p = name_index(ks, k);
                                let q = if p < i { p } else { p + 1 };
                                assert(ks0[q] == k);
                                assert(ks0.contains(k));
                                assert(q != i);
                            }
                            if name_index(ks0, k) >= 0 && k != name@ {
                                let q = name_index(ks0, k);
                                assert(q != i);
                                let p = if q < i { q } else { q - 1 };
                                assert(ks[p] == k);
                                assert(ks.contains(k));
                            }
                        }
                        assert forall|k: Seq<char>| #[trigger] self.spec_map().contains_key(k) implies self.spec_map()[k] == old_map.remove(name@)[k] by {
                            lemma_name_index(ks, k);
                            let p = name_index(ks, k);
                            let q = if p < i { p } else { p + 1 };
                            assert(ks0[q] == k);
                            lemma_distinct_index(ks0, q);
                            lemma_distinct_index(ks, p);
                            assert(self.entries@[p] == e0[q]);
                        }
                    }
                }
            },
            None => {
                proof {
                    assert(self.spec_map() =~= old_map.remove(name@));
                }
            },
        }
    }

    /// Records a successful build of the rule `name` whose input and output
    /// files have the signatures `inputs` and `outputs`.
    pub fn record(&mut self, name: &str, inputs: Vec<(String, u128)>, outputs: Vec<(String, u128)>)
        requires
            old(self).wf(),
        ensures
            final(self).wf(),
            final(self).spec_map() == old(self).spec_map().insert(
                name@,
                EntryView { inputs: sigs(inputs@), outputs: sigs(outputs@) },
            ),
    {
        self.insert(name.to_owned(), CacheEntry { input_hashes: inputs, output_hashes: outputs });
    }

    /// Whether the rule `name` needs no rebuild: it has an entry, and its
    /// input and output files have the signatures that entry recorded.
    pub fn is_up_to_date(&self, name: &str, inputs: &Vec<(String, u128)>, outputs: &Vec<(String, u128)>) -> (r: bool)
        requires
            self.wf(),
        ensures
            r == fresh_in(self.spec_map(), name@, sigs(inputs@), sigs(outputs@)),
    {
        match self.get(name) {
            None => false,
            Some(e) => sigs_equal(&e.input_hashes, inputs) && sigs_equal(&e.output_hashes, outputs),
        }
    }
}


// ---------------------------------------------------------------------
// The stored text: one `RULE <name>` line per rule, in ascending order of
// names, followed by one `  IN <time> <path>` line per input and one
// `  OUT <time> <path>` line per output, each line ending in a newline.

/// The line that stores one signature: `tag`, the time, a space, the path.
pub open spec fn sig_line(tag: Seq<char>, s: (Seq<char>, u128)) -> Seq<char> {
    tag + decimal(s.1 as nat) + seq![' '] + s.0
}

pub open spec fn sig_lines(tag: Seq<char>, ss: Seq<(Seq<char>, u128)>) -> Seq<Seq<char>> {
    ss.map_values(|s: (Seq<char>, u128)| sig_line(tag, s))
}

/// The lines that store the entry `e` of the rule `name`.
pub open spec fn entry_lines(name: Seq<char>, e: EntryView) -> Seq<Seq<char>> {
    seq!["RULE "@ + name] + sig_lines("  IN "@, e.inputs) + sig_lines("  OUT "@, e.outputs)
}

/// The lines that store the entries `m` of the rules `names`, in that order.
pub open spec fn cache_lines(names: Seq<Seq<char>>, m: Map<Seq<char>, EntryView>) -> Seq<Seq<char>>
    decreases names.len(),
{
    if names.len() == 0 {
        seq![]
    } else {
        cache_lines(names.drop_last(), m) + entry_lines(names.last(), m[names.last()])
    }
}

/// The stored text of the entries `m`, listing the rules in the order `names`.
pub open spec fn cache_text(names: Seq<Seq<char>>, m: Map<Seq<char>, EntryView>) -> Seq<char> {
    join_lines(cache_lines(names, m))
}

/// `names` lists the members of `dom` in strictly ascending order.
pub open spec fn ascending_names(names: Seq<Seq<char>>, dom: Set<Seq<char>>) -> bool {
    &&& names.to_set() == dom
    &&& forall|i: int, j: int|
        0 <= i < j < names.len() ==> lex_lt(#[trigger] names[i], #[trigger] names[j])
}

/// What reading the stored text has gathered so far: the finished
/// entries, the rule being read, and the signatures read for it.
pub struct CacheParse {
    pub entries: Map<Seq<char>, EntryView>,
    pub current: Option<Seq<char>>,
    pub inputs: Seq<(Seq<char>, u128)>,
    pub outputs: Seq<(Seq<char>, u128)>,
}

pub open spec fn empty_parse() -> CacheParse {
    CacheParse { entries: Map::empty(), current: None, inputs: seq![], outputs: seq![] }
}

/// The signature in `<time> <path>`: split at the first space, the time an
/// optional `+` and decimal digits that fit in 128 bits.
pub open spec fn parse_sig(rest: Seq<char>) -> Option<(Seq<char>, u128)> {
    let k = next_index(rest, 0, ' ');
    if k >= rest.len() {
        None
    } else {
        match written_number(rest.subrange(0, k)) {
            Some(v) => if v <= u128::MAX {
                Some((rest.subrange(k + 1, rest.len() as int), v as u128))
            } else {
                None
            },
            None => None,
        }
    }
}

/// The entries once the rule being read is finished.
pub open spec fn finish_rule(st: CacheParse) -> Map<Seq<char>, EntryView> {
    match st.current {
        Some(n) => st.entries.insert(n, EntryView { inputs: st.inputs, outputs: st.outputs }),
        None => st.entries,
    }
}

/// Reads one line. A `RULE` line finishes the rule being read, if any, and
/// starts a new one; signature lines before the first `RULE` line are kept
/// for it. Lines that fit no form are skipped.
pub open spec fn read_line(st: CacheParse, line: Seq<char>) -> CacheParse {
    let t = trim(line);
    if has_prefix(t, "RULE "@) {
        CacheParse {
            entries: finish_rule(st),
            current: Some(t.subrange("RULE "@.len() as int, t.len() as int)),
            inputs: if st.current is Some { seq![] } else { st.inputs },
            outputs: if st.current is Some { seq![] } else { st.outputs },
        }
    } else if has_prefix(t, "IN "@) {
        match parse_sig(t.subrange("IN "@.len() as int, t.len() as int)) {
            Some(s) => CacheParse { inputs: st.inputs.push(s), ..st },
            None => st,
        }
    } else if has_prefix(t, "OUT "@) {
        match parse_sig(t.subrange("OUT "@.len() as int, t.len() as int)) {
            Some(s) => CacheParse { outputs: st.outputs.push(s), ..st },
            None => st,
        }
    } else {
        st
    }
}

pub open spec fn read_lines(ls: Seq<Seq<char>>, st: CacheParse) -> CacheParse
    decreases ls.len(),
{
    if ls.len() == 0 {
        st
    } else {
        read_line(read_lines(ls.drop_last(), st), ls.last())
    }
}

/// The entries that the stored text `content` describes.
pub open spec fn deserialized(content: Seq<char>) -> Map<Seq<char>, EntryView> {
    finish_rule(read_lines(lines(content), empty_parse()))
}

/// A name or path that the text format stores faithfully: not empty, no
/// newline, not ending in whitespace.
pub open spec fn storable(s: Seq<char>) -> bool {
    &&& s.len() > 0
    &&& !s.contains('\n')
    &&& !is_ws(s.last())
}

pub open spec fn storable_sigs(ss: Seq<(Seq<char>, u128)>) -> bool {
    forall|i: int| 0 <= i < ss.len() ==> storable(#[trigger] ss[i].0)
}

/// Every rule name and every path in `m` is storable.
pub open spec fn storable_map(m: Map<Seq<char>, EntryView>) -> bool {
    forall|k: Seq<char>|
        #[trigger] m.contains_key(k) ==> storable(k) && storable_sigs(m[k].inputs) && storable_sigs(
            m[k].outputs,
        )
}

proof fn lemma_read_lines_append(a: Seq<Seq<char>>, b: Seq<Seq<char>>, st: CacheParse)
    ensures
        read_lines(a + b, st) == read_lines(b, read_lines(a, st)),
    decreases b.len(),
{
    if b.len() == 0 {
        assert(a + b =~= a);
    } else {
        assert((a + b).drop_last() =~= a + b.drop_last());
        lemma_read_lines_append(a, b.drop_last(), st);
    }
}

proof fn lemma_sig_line_parts(tag: Seq<char>, s: (Seq<char>, u128))
    requires
        storable(s.0),
        forall|j: int| 0 <= j < tag.len() ==> #[trigger] tag[j] != '\n',
    ensures
        clean_line(sig_line(tag, s)),
        sig_line(tag, s).last() == s.0.last(),
{
    let d = decimal(s.1 as nat);
    let l = sig_line(tag, s);
    lemma_decimal_number(s.1 as nat);
    assert forall|j: int| 0 <= j < l.len() implies l[j] != '\n' by {
        if j < tag.len() {
        } else if j < tag.len() + d.len() {
            assert(l[j] == d[j - tag.len()]);
            assert(crate::text::is_digit(d[j - tag.len()]));
        } else if j == tag.len() + d.len() {
        } else {
            assert(l[j] == s.0[j - tag.len() - d.len() - 1]);
            if s.0[j - tag.len() - d.len() - 1] == '\n' {
                assert(s.0.contains('\n'));
            }
        }
    }
    assert(l.last() == s.0.last());
    assert(!l.contains('\n'));
}

/// The tag of input (`out` false) or output (`out` true) signature lines.
pub open spec fn sig_tag(out: bool) -> Seq<char> {
    if out {
        "  OUT "@
    } else {
        "  IN "@
    }
}

/// `st` with the signatures `ss` added to its inputs or outputs.
pub open spec fn with_sigs(st: CacheParse, out: bool, ss: Seq<(Seq<char>, u128)>) -> CacheParse {
    if out {
        CacheParse { outputs: st.outputs + ss, ..st }
    } else {
        CacheParse { inputs: st.inputs + ss, ..st }
    }
}

/// Reading back a signature line adds its signature.
proof fn lemma_read_sig_line(st: CacheParse, s: (Seq<char>, u128), out: bool)
    requires
        storable(s.0),
    ensures
        read_line(st, sig_line(sig_tag(out), s)) == with_sigs(st, out, seq![s]),
{
    reveal_strlit("  IN ");
    reveal_strlit("  OUT ");
    reveal_strlit("IN ");
    reveal_strlit("OUT ");
    reveal_strlit("RULE ");
    let tag = sig_tag(out);
    let key = if out {
        "OUT "@
    } else {
        "IN "@
    };
    let d = decimal(s.1 as nat);
    let l = sig_line(tag, s);
    lemma_decimal_number(s.1 as nat);
    lemma_sig_line_parts(tag, s);
    lemma_trim_exact(l, 2);
    let t = trim(l);
    assert(t =~= key + d + seq![' '] + s.0);
    assert(!has_prefix(t, "RULE "@)) by {
        assert(t.subrange(0, 5)[0] != "RULE "@[0]);
    }
    if out {
        assert(!has_prefix(t, "IN "@)) by {
            assert(t.subrange(0, 3)[0] != "IN "@[0]);
        }
    }
    assert(t.subrange(0, key.len() as int) =~= key);
    let rest = t.subrange(key.len() as int, t.len() as int);
    assert(rest =~= d + seq![' '] + s.0);
    assert forall|j: int| 0 <= j < d.len() implies rest[j] != ' ' by {
        assert(rest[j] == d[j]);
        assert(crate::text::is_digit(d[j]));
    }
    crate::text::lemma_next_index_at(rest, 0, d.len() as int, ' ');
    assert(rest.subrange(0, d.len() as int) =~= d);
    assert(rest.subrange(d.len() as int + 1, rest.len() as int) =~= s.0);
    assert(parse_sig(rest) == Some(s));
    assert(st.inputs.push(s) =~= st.inputs + seq![s]);
    assert(st.outputs.push(s) =~= st.outputs + seq![s]);
}

proof fn lemma_read_sigs(st: CacheParse, ss: Seq<(Seq<char>, u128)>, out: bool)
    requires
        storable_sigs(ss),
    ensures
        read_lines(sig_lines(sig_tag(out), ss), st) == with_sigs(st, out, ss),
    decreases ss.len(),
{
    let tag = sig_tag(out);
    if ss.len() == 0 {
        assert(sig_lines(tag, ss) =~= seq![]);
        assert(st.outputs + ss =~= st.outputs);
        assert(st.inputs + ss =~= st.inputs);
    } else {
        let ls = sig_lines(tag, ss);
        assert(ls.drop_last() =~= sig_lines(tag, ss.drop_last()));
        assert(storable_sigs(ss.drop_last())) by {
            assert forall|i: int| 0 <= i < ss.drop_last().len() implies storable(
                #[trigger] ss.drop_last()[i].0,
            ) by {
                assert(ss.drop_last()[i] == ss[i]);
            }
        }
        lemma_read_sigs(st, ss.drop_last(), out);
        assert(storable(ss.last().0)) by {
            assert(storable(ss[ss.len() - 1].0));
        }
        lemma_read_sig_line(read_lines(ls.drop_last(), st), ss.last(), out);
        assert(st.outputs + ss.drop_last() + seq![ss.last()] =~= st.outputs + ss);
        assert(st.inputs + ss.drop_last() + seq![ss.last()] =~= st.inputs + ss);
    }
}

/// Reading back the lines of one entry finishes the rule read before and
/// leaves this one being read with exactly its signatures.
proof fn lemma_read_entry(st: CacheParse, name: Seq<char>, e: EntryView)
    requires
        storable(name),
        storable_sigs(e.inputs),
        storable_sigs(e.outputs),
        st.current is None ==> st.inputs.len() == 0 && st.outputs.len() == 0,
    ensures
        read_lines(entry_lines(name, e), st) == (CacheParse {
            entries: finish_rule(st),
            current: Some(name),
            inputs: e.inputs,
            outputs: e.outputs,
        }),
{
    reveal_strlit("RULE ");
    let head = "RULE "@ + name;
    assert(!is_ws(head[0]));
    assert(head.last() == name.last());
    lemma_trim_exact(head, 0);
    assert(head.subrange(0, head.len() as int) =~= head);
    assert(head.subrange(0, 5) =~= "RULE "@);
    assert(head.subrange(5, head.len() as int) =~= name);
    let st1 = CacheParse { entries: finish_rule(st), current: Some(name), inputs: seq![], outputs: seq![] };
    assert(read_line(st, head) == st1) by {
        assert(st.current is None ==> st.inputs =~= seq![] && st.outputs =~= seq![]);
    }
    let ins = sig_lines("  IN "@, e.inputs);
    let outs = sig_lines("  OUT "@, e.outputs);
    assert(entry_lines(name, e) =~= seq![head] + ins + outs);
    lemma_read_lines_append(seq![head] + ins, outs, st);
    lemma_read_lines_append(seq![head], ins, st);
    assert(seq![head].drop_last() =~= seq![]);
    assert(read_lines(seq![head].drop_last(), st) == st);
    assert(read_lines(seq![head], st) == st1);
    lemma_read_sigs(st1, e.inputs, false);
    assert(seq![] + e.inputs =~= e.inputs);
    let st2 = with_sigs(st1, false, e.inputs);
    lemma_read_sigs(st2, e.outputs, true);
    assert(seq![] + e.outputs =~= e.outputs);
}

/// The entries of `names`, the later listing of a name winning.
pub open spec fn listed_map(names: Seq<Seq<char>>, m: Map<Seq<char>, EntryView>) -> Map<Seq<char>, EntryView>
    decreases names.len(),
{
    if names.len() == 0 {
        Map::empty()
    } else {
        listed_map(names.drop_last(), m).insert(names.last(), m[names.last()])
    }
}

proof fn lemma_read_cache(names: Seq<Seq<char>>, m: Map<Seq<char>, EntryView>)
    requires
        storable_map(m),
        forall|i: int| 0 <= i < names.len() ==> m.contains_key(#[trigger] names[i]),
    ensures
        finish_rule(read_lines(cache_lines(names, m), empty_parse())) == listed_map(names, m),
        read_lines(cache_lines(names, m), empty_parse()).current is None ==> read_lines(
            cache_lines(names, m),
            empty_parse(),
        ).inputs.len() == 0 && read_lines(cache_lines(names, m), empty_parse()).outputs.len() == 0,
    decreases names.len(),
{
    if names.len() == 0 {
        assert(cache_lines(names, m) =~= seq![]);
        assert(finish_rule(empty_parse()) =~= Map::empty());
    } else {
        let dl = names.drop_last();
        let k = names.last();
        assert(m.contains_key(names[names.len() - 1]));
        lemma_read_cache(dl, m);
        lemma_read_lines_append(cache_lines(dl, m), entry_lines(k, m[k]), empty_parse());
        lemma_read_entry(read_lines(cache_lines(dl, m), empty_parse()), k, m[k]);
    }
}

proof fn lemma_listed_map(names: Seq<Seq<char>>, m: Map<Seq<char>, EntryView>)
    requires
        forall|i: int| 0 <= i < names.len() ==> m.contains_key(#[trigger] names[i]),
    ensures
        forall|k: Seq<char>| #[trigger] listed_map(names, m).contains_key(k) <==> names.contains(k),
        forall|k: Seq<char>| #[trigger] listed_map(names, m).contains_key(k) ==> listed_map(names, m)[k] == m[k],
    decreases names.len(),
{
    if names.len() > 0 {
        let dl = names.drop_last();
        assert forall|i: int| 0 <= i < dl.len() implies m.contains_key(#[trigger] dl[i]) by {
            assert(dl[i] == names[i]);
        }
        lemma_listed_map(dl, m);
        let last = names.last();
        assert(names[names.len() - 1] == last);
        assert(listed_map(names, m) == listed_map(dl, m).insert(last, m[last]));
        assert forall|k: Seq<char>| #[trigger] listed_map(names, m).contains_key(k) <==> names.contains(k) by {
            if names.contains(k) && k != last {
                let i = choose|i: int| 0 <= i < names.len() && names[i] == k;
                assert(i < names.len() - 1);
                assert(dl[i] == k);
                assert(dl.contains(k));
            }
            if dl.contains(k) {
                let i = choose|i: int| 0 <= i < dl.len() && dl[i] == k;
                assert(names[i] == k);
                assert(names.contains(k));
            }
            if k == last {
                assert(names.contains(k));
            }
        }
        assert forall|k: Seq<char>| #[trigger] listed_map(names, m).contains_key(k) implies listed_map(names, m)[k] == m[k] by {
            if k != last {
                assert(listed_map(dl, m).contains_key(k));
            }
        }
    }
}

proof fn lemma_sig_lines_clean(tag: Seq<char>, ss: Seq<(Seq<char>, u128)>)
    requires
        storable_sigs(ss),
        forall|j: int| 0 <= j < tag.len() ==> #[trigger] tag[j] != '\n',
    ensures
        forall|t: int| 0 <= t < ss.len() ==> clean_line(#[trigger] sig_lines(tag, ss)[t]),
{
    assert forall|t: int| 0 <= t < ss.len() implies clean_line(#[trigger] sig_lines(tag, ss)[t]) by {
        assert(storable(ss[t].0));
        lemma_sig_line_parts(tag, ss[t]);
        assert(is_ws('\r'));
    }
}

proof fn lemma_cache_lines_clean(names: Seq<Seq<char>>, m: Map<Seq<char>, EntryView>)
    requires
        storable_map(m),
        forall|i: int| 0 <= i < names.len() ==> m.contains_key(#[trigger] names[i]),
    ensures
        forall|t: int|
            0 <= t < cache_lines(names, m).len() ==> clean_line(#[trigger] cache_lines(names, m)[t]),
    decreases names.len(),
{
    if names.len() > 0 {
        reveal_strlit("RULE ");
        reveal_strlit("  IN ");
        reveal_strlit("  OUT ");
        let dl = names.drop_last();
        let k = names.last();
        assert(m.contains_key(names[names.len() - 1]));
        assert forall|i: int| 0 <= i < dl.len() implies m.contains_key(#[trigger] dl[i]) by {
            assert(dl[i] == names[i]);
        }
        lemma_cache_lines_clean(dl, m);
        let e = m[k];
        let head = "RULE "@ + k;
        assert(clean_line(head)) by {
            assert forall|j: int| 0 <= j < head.len() implies head[j] != '\n' by {
                if j >= 5 {
                    assert(head[j] == k[j - 5]);
                    if k[j - 5] == '\n' {
                        assert(k.contains('\n'));
                    }
                }
            }
            assert(head.last() == k.last());
            assert(is_ws('\r'));
        }
        let ins = sig_lines("  IN "@, e.inputs);
        let outs = sig_lines("  OUT "@, e.outputs);
        lemma_sig_lines_clean("  IN "@, e.inputs);
        lemma_sig_lines_clean("  OUT "@, e.outputs);
        let a = cache_lines(dl, m);
        let b = seq![head] + ins + outs;
        assert(cache_lines(names, m) =~= a + b);
        assert forall|t: int| 0 <= t < (a + b).len() implies clean_line(#[trigger] (a + b)[t]) by {
            if t < a.len() {
                assert((a + b)[t] == a[t]);
            } else if t == a.len() {
                assert((a + b)[t] == head);
            } else if t < a.len() + 1 + ins.len() {
                assert((a + b)[t] == ins[t - a.len() - 1]);
            } else {
                assert((a + b)[t] == outs[t - a.len() - 1 - ins.len()]);
            }
        }
    }
}

/// Storing the entries of a cache and reading the text back gives the same
/// entries, whatever order the rules are listed in, as long as every rule
/// name and path is storable.
pub proof fn lemma_text_roundtrip(names: Seq<Seq<char>>, m: Map<Seq<char>, EntryView>)
    requires
        names.to_set() == m.dom(),
        storable_map(m),
    ensures
        deserialized(cache_text(names, m)) == m,
{
    assert forall|i: int| 0 <= i < names.len() implies m.contains_key(#[trigger] names[i]) by {
        assert(names.to_set().contains(names[i]));
    }
    lemma_cache_lines_clean(names, m);
    lemma_lines_join(cache_lines(names, m));
    lemma_read_cache(names, m);
    lemma_listed_map(names, m);
    assert forall|k: Seq<char>| #[trigger] m.contains_key(k) implies names.contains(k) by {
        assert(names.to_set().contains(k));
    }
    assert(listed_map(names, m) =~= m);
}

/// Appends the lines that store the signatures `v` under `tag` to `out`.
fn write_sigs(out: &mut String, tag: &str, v: &Vec<(String, u128)>, Ghost(ls): Ghost<Seq<Seq<char>>>)
    requires
        old(out)@ == join_lines(ls),
    ensures
        final(out)@ == join_lines(ls + sig_lines(tag@, sigs(v@))),
{
    let mut j: usize = 0;
    while j < v.len()
        invariant
            j <= v@.len(),
            out@ == join_lines(ls + sig_lines(tag@, sigs(v@).take(j as int))),
        decreases v@.len() - j,
    {
        let ghost before = ls + sig_lines(tag@, sigs(v@).take(j as int));
        let ghost line = sig_line(tag@, sigs(v@)[j as int]);
        out.append(tag);
        push_chars(out, &decimal_vec(v[j].1));
        push_char(out, ' ');
        out.append(v[j].0.as_str());
        push_char(out, '\n');
        proof {
            assert(out@ =~= join_lines(before) + line + seq!['\n']);
            lemma_join_push(before, line);
            assert(sigs(v@).take(j + 1) =~= sigs(v@).take(j as int).push(sigs(v@)[j as int]));
            assert(before.push(line) =~= ls + sig_lines(tag@, sigs(v@).take(j + 1)));
        }
        j += 1;
    }
    assert(sigs(v@).take(v@.len() as int) =~= sigs(v@));
}

impl BuildCache {
    /// The stored text of this cache, its rules in ascending order of name.
    pub fn serialize(&self) -> (r: String)
        requires
            self.wf(),
        ensures
            exists|names: Seq<Seq<char>>|
                ascending_names(names, self.spec_map().dom()) && r@ == cache_text(names, self.spec_map()),
    {
        let ghost ks = entry_keys(self.entries@);
        let ghost m = self.spec_map();
        let n = self.entries.len();
        let mut keys: Vec<Vec<char>> = Vec::new();
        let mut items: Vec<usize> = Vec::new();
        let mut i: usize = 0;
        while i < n
            invariant
                n == self.entries@.len(),
                i <= n,
                ks == entry_keys(self.entries@),
                keys@.len() == i,
                items@.len() == i,
                forall|t: int| 0 <= t < i ==> (#[trigger] keys@[t])@ == ks[t],
                forall|t: int| 0 <= t < i ==> #[trigger] items@[t] == t,
            decreases n - i,
        {
            keys.push(chars_of(self.entries[i].0.as_str()));
            items.push(i);
            i += 1;
        }
        assert(items@.no_duplicates());
        let order = sort_by_key(&items, &keys);
        let ghost kv = keys@.map_values(|k: Vec<char>| k@);
        assert(kv =~= ks);
        let ghost names = order@.map_values(|x: usize| ks[x as int]);
        proof {
            assert forall|x: usize| #[trigger] order@.contains(x) <==> x < n by {
                if x < n {
                    assert(items@[x as int] == x);
                }
            }
            assert forall|a: int, b: int| 0 <= a < b < names.len() implies lex_lt(
                #[trigger] names[a],
                #[trigger] names[b],
            ) by {
                assert(order@.contains(order@[a]) && order@.contains(order@[b]));
                assert(order@[a] != order@[b]);
                assert(names[a] != names[b]);
                lemma_lex_total(names[a], names[b], 0);
            }
            assert forall|k: Seq<char>| #[trigger] names.to_set().contains(k) <==> m.dom().contains(k) by {
                lemma_name_index(ks, k);
                if names.to_set().contains(k) {
                    let a = choose|a: int| 0 <= a < names.len() && names[a] == k;
                    assert(order@.contains(order@[a]));
                    assert(ks.contains(k));
                }
                if m.dom().contains(k) {
                    let x = name_index(ks, k);
                    assert(order@.contains(x as usize));
                    let a = choose|a: int| 0 <= a < order@.len() && order@[a] == x as usize;
                    assert(names[a] == k);
                    assert(names.contains(k));
                }
            }
            assert(names.to_set() =~= m.dom());
            assert forall|a: int| 0 <= a < order@.len() implies #[trigger] order@[a] < n by {
                assert(order@.contains(order@[a]));
            }
        }
        let mut out = String::new();
        let mut t: usize = 0;
        while t < order.len()
            invariant
                self.wf(),
                t <= order@.len(),
                n == self.entries@.len(),
                ks == entry_keys(self.entries@),
                m == self.spec_map(),
                names == order@.map_values(|x: usize| ks[x as int]),
                forall|a: int| 0 <= a < order@.len() ==> #[trigger] order@[a] < n,
                out@ == join_lines(cache_lines(names.take(t as int), m)),
            decreases order@.len() - t,
        {
            let x = order[t];
            let ghost k = ks[x as int];
            let ghost e = m[k];
            proof {
                lemma_distinct_index(ks, x as int);
                assert(e == self.entries@[x as int].1@);
            }
            let ghost l0 = cache_lines(names.take(t as int), m);
            let ghost head = "RULE "@ + k;
            out.append("RULE ");
            out.append(self.entries[x].0.as_str());
            push_char(&mut out, '\n');
            proof {
                assert(out@ =~= join_lines(l0) + head + seq!['\n']);
                lemma_join_push(l0, head);
            }
            write_sigs(&mut out, "  IN ", &self.entries[x].1.input_hashes, Ghost(l0.push(head)));
            write_sigs(
                &mut out,
                "  OUT ",
                &self.entries[x].1.output_hashes,
                Ghost(l0.push(head) + sig_lines("  IN "@, e.inputs)),
            );
            proof {
                assert(names.take(t + 1).drop_last() =~= names.take(t as int));
                assert(names.take(t + 1).last() == k);
                assert(l0.push(head) + sig_lines("  IN "@, e.inputs) + sig_lines("  OUT "@, e.outputs)
                    =~= l0 + entry_lines(k, e));
            }
            t += 1;
        }
        assert(names.take(order@.len() as int) =~= names);
        assert(ascending_names(names, m.dom()) && out@ == cache_text(names, m));
        out
    }
}

/// The signature in `<time> <path>`, if the text has that form.
fn read_sig(rest: &Vec<char>) -> (r: Option<(String, u128)>)
    ensures
        match r {
            Some(p) => parse_sig(rest@) == Some((p.0@, p.1)),
            None => parse_sig(rest@) is None,
        },
{
    let k = find_char(rest, 0, ' ');
    if k >= rest.len() {
        return None;
    }
    let ts = slice_vec(rest, 0, k);
    match parse_u128(&ts) {
        Some(v) => Some((string_of(rest, k + 1, rest.len()), v)),
        None => None,
    }
}

pub open spec fn opt_view(o: Option<String>) -> Option<Seq<char>> {
    match o {
        Some(s) => Some(s@),
        None => None,
    }
}

/// What the reading state held in these variables stands for.
pub open spec fn parse_state(
    cache: BuildCache,
    current: Option<String>,
    ins: Seq<(String, u128)>,
    outs: Seq<(String, u128)>,
) -> CacheParse {
    CacheParse {
        entries: cache.spec_map(),
        current: opt_view(current),
        inputs: sigs(ins),
        outputs: sigs(outs),
    }
}

impl BuildCache {
    /// The cache that the stored text `content` describes.
    pub fn deserialize(content: &str) -> (r: BuildCache)
        ensures
            r.wf(),
            r.spec_map() == deserialized(content@),
    {
        let c = chars_of(content);
        let ghost ls = lines(c@);
        let rule_kw = chars_of("RULE ");
        let in_kw = chars_of("IN ");
        let out_kw = chars_of("OUT ");
        let mut cache = BuildCache::new();
        let mut current: Option<String> = None;
        let mut ins: Vec<(String, u128)> = Vec::new();
        let mut outs: Vec<(String, u128)> = Vec::new();
        assert(ls.take(0) =~= seq![]);
        assert(parse_state(cache, current, ins@, outs@) =~= empty_parse()) by {
            assert(sigs(ins@) =~= seq![]);
            assert(sigs(outs@) =~= seq![]);
        }
        assert(ls.subrange(0, ls.len() as int) =~= ls);
        let mut pos: usize = 0;
        let mut i: usize = 0;
        while pos < c.len()
            invariant
                c@ == content@,
                c@.len() <= isize::MAX,
                ls == lines(c@),
                rule_kw@ == "RULE "@,
                in_kw@ == "IN "@,
                out_kw@ == "OUT "@,
                i <= pos <= c@.len(),
                i <= ls.len(),
                lines_from(c@, pos as int) == ls.subrange(i as int, ls.len() as int),
                cache.wf(),
                parse_state(cache, current, ins@, outs@) == read_lines(ls.take(i as int), empty_parse()),
            decreases c@.len() - pos,
        {
            let k = find_char(&c, pos, '\n');
            let mut raw = if k < c.len() {
                slice_vec(&c, pos, k)
            } else {
                slice_vec(&c, pos, c.len())
            };
            if k < c.len() && raw.len() > 0 && raw[raw.len() - 1] == '\r' {
                raw.pop();
            }
            proof {
                let rest = ls.subrange(i as int, ls.len() as int);
                if k < c@.len() {
                    assert(raw@ =~= strip_cr(c@.subrange(pos as int, k as int)));
                    assert(rest =~= seq![raw@] + lines_from(c@, k + 1));
                } else {
                    assert(rest =~= seq![raw@]);
                }
                assert(rest.len() >= 1);
                assert(i < ls.len());
                assert(rest[0] == raw@);
                assert(rest[0] == ls[i as int]);
            }
            let ghost st = parse_state(cache, current, ins@, outs@);
            let t = trim_vec(&raw);
            if starts_with(&t, &rule_kw) {
                let rest = string_of(&t, rule_kw.len(), t.len());
                match current {
                    Some(name) => {
                        let ghost e = EntryView { inputs: sigs(ins@), outputs: sigs(outs@) };
                        cache.insert(name, CacheEntry { input_hashes: ins, output_hashes: outs });
                        ins = Vec::new();
                        outs = Vec::new();
                        proof {
                            assert(sigs(ins@) =~= seq![]);
                            assert(sigs(outs@) =~= seq![]);
                        }
                    },
                    None => {},
                }
                current = Some(rest);
            } else if starts_with(&t, &in_kw) {
                let rest = slice_vec(&t, in_kw.len(), t.len());
                match read_sig(&rest) {
                    Some(s) => {
                        ins.push(s);
                        proof {
                            assert(sigs(ins@) =~= st.inputs.push(sig_view(s)));
                        }
                    },
                    None => {},
                }
            } else if starts_with(&t, &out_kw) {
                let rest = slice_vec(&t, out_kw.len(), t.len());
                match read_sig(&rest) {
                    Some(s) => {
                        outs.push(s);
                        proof {
                            assert(sigs(outs@) =~= st.outputs.push(sig_view(s)));
                        }
                    },
                    None => {},
                }
            }
            proof {
                assert(parse_state(cache, current, ins@, outs@) == read_line(st, raw@));
                assert(ls.take(i + 1).drop_last() =~= ls.take(i as int));
                assert(ls.take(i + 1).last() == ls[i as int]);
                let rest = ls.subrange(i as int, ls.len() as int);
                if k < c@.len() {
                    assert(ls.subrange(i + 1, ls.len() as int) =~= rest.subrange(1, rest.len() as int));
                } else {
                    assert(ls.subrange(i + 1, ls.len() as int) =~= rest.subrange(1, rest.len() as int));
                    assert(lines_from(c@, c@.len() as int) =~= seq![]);
                }
            }
            i = i + 1;
            pos = if k < c.len() {
                k + 1
            } else {
                c.len()
            };
        }
        assert(ls.subrange(i as int, ls.len() as int).len() == 0);
        assert(ls.take(i as int) =~= ls);
        match current {
            Some(name) => {
                cache.insert(name, CacheEntry { input_hashes: ins, output_hashes: outs });
            },
            None => {},
        }
        cache
    }
}

/// Signature order: by path, then by time.
pub open spec fn sig_lt(a: (Seq<char>, u128), b: (Seq<char>, u128)) -> bool {
    lex_lt(a.0, b.0) || (a.0 == b.0 && a.1 < b.1)
}

/// No signature of `s` comes after one that is smaller.
pub open spec fn sigs_sorted(s: Seq<(Seq<char>, u128)>) -> bool {
    forall|i: int, j: int| 0 <= i < j < s.len() ==> !sig_lt(#[trigger] s[j], #[trigger] s[i])
}

proof fn lemma_sig_order(a: (Seq<char>, u128), b: (Seq<char>, u128), c: (Seq<char>, u128))
    ensures
        !sig_lt(a, a),
        sig_lt(a, b) && sig_lt(b, c) ==> sig_lt(a, c),
{
    lemma_lex_irrefl(a.0, 0);
    if lex_lt(a.0, b.0) && lex_lt(b.0, c.0) {
        lemma_lex_trans(a.0, b.0, c.0, 0);
    }
}

/// The signatures `v` in ascending order of path, then time.
pub fn sort_signatures(v: &Vec<(String, u128)>) -> (r: Vec<(String, u128)>)
    ensures
        sigs(r@).to_multiset() == sigs(v@).to_multiset(),
        sigs_sorted(sigs(r@)),
{
    let mut r: Vec<(String, u128)> = Vec::new();
    let mut keys: Vec<Vec<char>> = Vec::new();
    let mut i: usize = 0;
    assert(sigs(v@).take(0) =~= seq![]);
    assert(sigs(r@) =~= seq![]);
    while i < v.len()
        invariant
            i <= v@.len(),
            keys@.len() == r@.len(),
            forall|t: int| 0 <= t < r@.len() ==> (#[trigger] keys@[t])@ == r@[t].0@,
            sigs(r@).to_multiset() == sigs(v@).take(i as int).to_multiset(),
            sigs_sorted(sigs(r@)),
        decreases v@.len() - i,
    {
        let path = chars_of(v[i].0.as_str());
        let ts = v[i].1;
        let ghost x = (path@, ts);
        let ghost s0 = sigs(r@);
        let mut p: usize = 0;
        while p < r.len() && !(lex_less(&path, &keys[p]) || (chars_eq(&path, &keys[p]) && ts < r[p].1))
            invariant
                p <= r@.len(),
                keys@.len() == r@.len(),
                s0 == sigs(r@),
                x == (path@, ts),
                forall|t: int| 0 <= t < r@.len() ==> (#[trigger] keys@[t])@ == r@[t].0@,
                forall|q: int| 0 <= q < p ==> !sig_lt(x, #[trigger] s0[q]),
            decreases r@.len() - p,
        {
            p += 1;
        }
        proof {
            if p < r@.len() {
                assert(sig_lt(x, s0[p as int]));
            }
        }
        let ghost k0 = keys@;
        let ghost r0 = r@;
        r.insert(p, (v[i].0.clone(), ts));
        keys.insert(p, path);
        proof {
            let s1 = sigs(r@);
            assert(s1 =~= s0.insert(p as int, x));
            vstd::seq_lib::to_multiset_insert(s0, p as int, x);
            assert(sigs(v@).take(i + 1) =~= sigs(v@).take(i as int).push(x));
            vstd::seq_lib::to_multiset_build(sigs(v@).take(i as int), x);
            assert forall|a: int, b: int| 0 <= a < b < s1.len() implies !sig_lt(
                #[trigger] s1[b],
                #[trigger] s1[a],
            ) by {
                if a < p && b == p {
                } else if a == p && b > p {
                    lemma_sig_order(s0[b - 1], x, s0[p as int]);
                    lemma_sig_order(s0[p as int], s0[p as int], s0[p as int]);
                    if b - 1 > p {
                        assert(!sig_lt(s0[b - 1], s0[p as int]));
                    }
                } else {
                    let a0 = if a < p { a } else { a - 1 };
                    let b0 = if b < p { b } else { b - 1 };
                    assert(s1[a] == s0[a0] && s1[b] == s0[b0]);
                }
            }
            assert forall|t: int| 0 <= t < r@.len() implies (#[trigger] keys@[t])@ == r@[t].0@ by {
                if t < p {
                    assert(keys@[t] == k0[t] && r@[t] == r0[t]);
                } else if t > p {
                    assert(keys@[t] == k0[t - 1] && r@[t] == r0[t - 1]);
                }
            }
        }
        i += 1;
    }
    assert(sigs(v@).take(v@.len() as int) =~= sigs(v@));
    r
}

/// Whether `m` says the rule `name` is up to date for the signatures
/// `inputs` and `outputs`.
pub open spec fn fresh_in(
    m: Map<Seq<char>, EntryView>,
    name: Seq<char>,
    inputs: Seq<(Seq<char>, u128)>,
    outputs: Seq<(Seq<char>, u128)>,
) -> bool {
    m.contains_key(name) && m[name].inputs == inputs && m[name].outputs == outputs
}

/// Right after a rule's build is recorded, the rule is up to date for the
/// signatures recorded; other rules are as up to date as before.
pub proof fn lemma_record_then_fresh(
    m: Map<Seq<char>, EntryView>,
    name: Seq<char>,
    inputs: Seq<(Seq<char>, u128)>,
    outputs: Seq<(Seq<char>, u128)>,
    other: Seq<char>,
    oi: Seq<(Seq<char>, u128)>,
    oo: Seq<(Seq<char>, u128)>,
)
    requires
        other != name,
    ensures
        fresh_in(m.insert(name, EntryView { inputs, outputs }), name, inputs, outputs),
        fresh_in(m.insert(name, EntryView { inputs, outputs }), other, oi, oo) == fresh_in(m, other, oi, oo),
{
}

/// After a rule is invalidated it is not up to date for any signatures.
pub proof fn lemma_invalidate_then_stale(
    m: Map<Seq<char>, EntryView>,
    name: Seq<char>,
    inputs: Seq<(Seq<char>, u128)>,
    outputs: Seq<(Seq<char>, u128)>,
)
    ensures
        !fresh_in(m.remove(name), name, inputs, outputs),
{
}

} // verus!
