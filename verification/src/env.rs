//! Environment variable maps (`env KEY = VALUE`): a later setting of a key
//! replaces an earlier one.
use vstd::prelude::*;

verus! {

/// A map from variable names to values. Settings are kept in the order they
/// were made; a lookup sees the latest setting of the key.
#[derive(Debug, Clone)]
pub struct EnvMap {
    entries: Vec<(String, String)>,
}

/// The map made by the settings `e`, applied in order.
pub open spec fn settings_map(e: Seq<(Seq<char>, Seq<char>)>) -> Map<Seq<char>, Seq<char>>
    decreases e.len(),
{
    if e.len() == 0 {
        Map::empty()
    } else {
        settings_map(e.drop_last()).insert(e.last().0, e.last().1)
    }
}

pub open spec fn pair_view(p: (String, String)) -> (Seq<char>, Seq<char>) {
    (p.0@, p.1@)
}

impl EnvMap {
    /// The settings, in order, as character sequences.
    pub closed spec fn settings(&self) -> Seq<(Seq<char>, Seq<char>)> {
        self.entries@.map_values(|p: (String, String)| pair_view(p))
    }

    pub open spec fn spec_map(&self) -> Map<Seq<char>, Seq<char>> {
        settings_map(self.settings())
    }

    /// An empty map.
    pub fn new() -> (r: Self)
        ensures
            r.spec_map() == Map::<Seq<char>, Seq<char>>::empty(),
            r.settings() == Seq::<(Seq<char>, Seq<char>)>::empty(),
    {
        let r = EnvMap { entries: Vec::new() };
        assert(r.settings() =~= Seq::<(Seq<char>, Seq<char>)>::empty());
        r
    }

    /// Sets `key` to `value`, replacing any earlier value.
    pub fn insert(&mut self, key: String, value: String)
        ensures
            final(self).spec_map() == old(self).spec_map().insert(key@, value@),
            final(self).settings() == old(self).settings().push((key@, value@)),
    {
        self.entries.push((key, value));
        assert(self.settings().drop_last() =~= old(self).settings());
        assert(self.settings() =~= old(self).settings().push((key@, value@)));
    }

    /// The value of the variable whose name is `key`.
    pub fn get_chars(&self, key: &Vec<char>) -> (r: Option<&String>)
        ensures
            match r {
                Some(v) => self.spec_map().contains_key(key@) && v@ == self.spec_map()[key@],
                None => !self.spec_map().contains_key(key@),
            },
    {
        let k = crate::text::string_from(key);
        let mut i = self.entries.len();
        while i > 0
            invariant
                i <= self.entries@.len(),
                k@ == key@,
                forall|j: int|
                    i <= j < self.entries@.len() ==> #[trigger] self.entries@[j].0@ != key@,
            decreases i,
        {
            if self.entries[i - 1].0 == k {
                proof {
                    lemma_latest(self.settings(), (i - 1) as int, key@);
                }
                return Some(&self.entries[i - 1].1);
            }
            i -= 1;
        }
        proof {
            lemma_absent(self.settings(), key@);
        }
        None
    }

    /// The value of the variable `key`.
    pub fn get(&self, key: &str) -> (r: Option<&String>)
        ensures
            match r {
                Some(v) => self.spec_map().contains_key(key@) && v@ == self.spec_map()[key@],
                None => !self.spec_map().contains_key(key@),
            },
    {
        let kv = crate::text::chars_of(key);
        self.get_chars(&kv)
    }

    /// Whether the variable `key` is set.
    pub fn contains_key(&self, key: &str) -> (r: bool)
        ensures
            r == self.spec_map().contains_key(key@),
    {
        self.get(key).is_some()
    }

    /// This map's settings followed by those of `over`, whose values win.
    pub fn merged(&self, over: &EnvMap) -> (r: EnvMap)
        ensures
            r.settings() == self.settings() + over.settings(),
            r.spec_map() == self.spec_map().union_prefer_right(over.spec_map()),
    {
        let mut r = self.clone_map();
        let mut i: usize = 0;
        while i < over.entries.len()
            invariant
                i <= over.entries@.len(),
                r.settings() == self.settings() + over.settings().take(i as int),
            decreases over.entries@.len() - i,
        {
            let k = over.entries[i].0.clone();
            let v = over.entries[i].1.clone();
            r.insert(k, v);
            i += 1;
            assert(self.settings() + over.settings().take(i as int) =~= (self.settings()
                + over.settings().take(i - 1)).push(pair_view(over.entries@[i - 1])));
        }
        assert(over.settings().take(i as int) =~= over.settings());
        proof {
            lemma_settings_concat(self.settings(), over.settings());
        }
        r
    }

    /// A copy of this map.
    pub fn clone_map(&self) -> (r: EnvMap)
        ensures
            r.settings() == self.settings(),
            r.spec_map() == self.spec_map(),
    {
        let mut r = EnvMap::new();
        let mut i: usize = 0;
        while i < self.entries.len()
            invariant
                i <= self.entries@.len(),
                r.settings() == self.settings().take(i as int),
            decreases self.entries@.len() - i,
        {
            let k = self.entries[i].0.clone();
            let v = self.entries[i].1.clone();
            r.insert(k, v);
            i += 1;
            assert(self.settings().take(i as int) =~= self.settings().take(i - 1).push(
                pair_view(self.entries@[i - 1]),
            ));
        }
        assert(self.settings().take(i as int) =~= self.settings());
        r
    }
}

proof fn lemma_latest(e: Seq<(Seq<char>, Seq<char>)>, i: int, key: Seq<char>)
    requires
        0 <= i < e.len(),
        e[i].0 == key,
        forall|j: int| i < j < e.len() ==> #[trigger] e[j].0 != key,
    ensures
        settings_map(e).contains_key(key),
        settings_map(e)[key] == e[i].1,
    decreases e.len(),
{
    if i < e.len() - 1 {
        lemma_latest(e.drop_last(), i, key);
    }
}

proof fn lemma_absent(e: Seq<(Seq<char>, Seq<char>)>, key: Seq<char>)
    requires
        forall|j: int| 0 <= j < e.len() ==> #[trigger] e[j].0 != key,
    ensures
        !settings_map(e).contains_key(key),
    decreases e.len(),
{
    if e.len() > 0 {
        lemma_absent(e.drop_last(), key);
    }
}

proof fn lemma_settings_concat(a: Seq<(Seq<char>, Seq<char>)>, b: Seq<(Seq<char>, Seq<char>)>)
    ensures
        settings_map(a + b) == settings_map(a).union_prefer_right(settings_map(b)),
    decreases b.len(),
{
    if b.len() == 0 {
        assert(a + b =~= a);
        assert(settings_map(a).union_prefer_right(settings_map(b)) =~= settings_map(a));
    } else {
        lemma_settings_concat(a, b.drop_last());
        assert((a + b).drop_last() =~= a + b.drop_last());
        assert(settings_map(a + b) =~= settings_map(a).union_prefer_right(settings_map(b)));
    }
}

} // verus!
