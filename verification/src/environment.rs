//! The central data model: an ordered mapping from variable names to
//! string values, together with the spec-level operations (key search,
//! lookup, upsert) that the codec, store and launcher contracts share.

use vstd::prelude::*;

verus! {

/// Characters that terminate a line in a stored environment file.
pub open spec fn is_line_term(c: char) -> bool {
    c == '\n' || c == '\r'
}

/// A variable name that can stand on one `key=value` line without any
/// escaping: non-empty, free of `=` and line terminators, and not
/// beginning with a comment marker.
pub open spec fn valid_key(k: Seq<char>) -> bool {
    &&& k.len() > 0
    &&& forall|i: int| 0 <= i < k.len() ==> k[i] != '=' && !is_line_term(k[i])
    &&& k[0] != '#'
    &&& k[0] != '!'
}

/// A variable value that fits on one line: free of line terminators.
pub open spec fn valid_value(v: Seq<char>) -> bool {
    forall|i: int| 0 <= i < v.len() ==> !is_line_term(v[i])
}

/// The position of the first pair whose key is `k`, scanning from the front.
pub open spec fn find_key(s: Seq<(Seq<char>, Seq<char>)>, k: Seq<char>) -> Option<int>
    decreases s.len(),
{
    if s.len() == 0 {
        None
    } else if s[0].0 == k {
        Some(0int)
    } else {
        match find_key(s.drop_first(), k) {
            Some(i) => Some(i + 1),
            None => None,
        }
    }
}

/// Whether some pair in `s` carries the key `k`.
pub open spec fn has_key(s: Seq<(Seq<char>, Seq<char>)>, k: Seq<char>) -> bool {
    find_key(s, k) is Some
}

/// The value bound to `k`, if any.
pub open spec fn lookup(s: Seq<(Seq<char>, Seq<char>)>, k: Seq<char>) -> Option<Seq<char>> {
    match find_key(s, k) {
        Some(i) => Some(s[i].1),
        None => None,
    }
}

/// Bind `k` to `v`: replace the value in place where `k` already occurs,
/// append a new pair at the end otherwise.
pub open spec fn upsert(
    s: Seq<(Seq<char>, Seq<char>)>,
    k: Seq<char>,
    v: Seq<char>,
) -> Seq<(Seq<char>, Seq<char>)> {
    match find_key(s, k) {
        Some(i) => s.update(i, (k, v)),
        None => s.push((k, v)),
    }
}

/// No two pairs carry the same key: the sequence really is a mapping.
pub open spec fn distinct_keys(s: Seq<(Seq<char>, Seq<char>)>) -> bool {
    forall|i: int, j: int| 0 <= i < j < s.len() ==> s[i].0 != s[j].0
}

/// A well-formed environment: a mapping whose keys and values can be
/// written one per line without escaping.
pub open spec fn env_wf(s: Seq<(Seq<char>, Seq<char>)>) -> bool {
    &&& distinct_keys(s)
    &&& forall|i: int| 0 <= i < s.len() ==> valid_key(#[trigger] s[i].0) && valid_value(s[i].1)
}

/// `find_key` returns the first position of `k`, or `None` when no pair
/// carries `k`.
pub proof fn lemma_find_key_props(s: Seq<(Seq<char>, Seq<char>)>, k: Seq<char>)
    ensures
        match find_key(s, k) {
            Some(i) => 0 <= i < s.len() && s[i].0 == k && forall|m: int|
                0 <= m < i ==> (#[trigger] s[m].0) != k,
            None => forall|m: int| 0 <= m < s.len() ==> (#[trigger] s[m].0) != k,
        },
    decreases s.len(),
{
    if s.len() > 0 && s[0].0 != k {
        lemma_find_key_props(s.drop_first(), k);
        assert forall|m: int| 1 <= m < s.len() implies s.drop_first()[m - 1] == s[m] by {}
    }
}

/// `find_key` answers `Some(i)` exactly where `i` is the first position
/// carrying `k`.
pub proof fn lemma_find_key_at(s: Seq<(Seq<char>, Seq<char>)>, k: Seq<char>, i: int)
    requires
        0 <= i < s.len(),
        s[i].0 == k,
        forall|m: int| 0 <= m < i ==> (#[trigger] s[m].0) != k,
    ensures
        find_key(s, k) == Some(i),
{
    lemma_find_key_props(s, k);
    match find_key(s, k) {
        Some(j) => {
            if j < i {
                assert(s[j].0 != k);
            } else if j > i {
                assert(s[i].0 != k);
            }
        },
        None => {
            assert(s[i].0 != k);
        },
    }
}

/// An upsert never disturbs the bindings of other keys.
pub proof fn lemma_upsert_other(
    s: Seq<(Seq<char>, Seq<char>)>,
    k: Seq<char>,
    v: Seq<char>,
    k2: Seq<char>,
)
    requires
        k2 != k,
    ensures
        lookup(upsert(s, k, v), k2) == lookup(s, k2),
{
    lemma_find_key_props(s, k);
    lemma_find_key_props(s, k2);
    let s2 = upsert(s, k, v);
    match find_key(s, k2) {
        Some(i) => {
            assert(s2[i].0 == k2 && s2[i].1 == s[i].1);
            assert(forall|m: int| 0 <= m < i ==> (#[trigger] s2[m].0) != k2);
            lemma_find_key_at(s2, k2, i);
        },
        None => {
            lemma_find_key_props(s2, k2);
            match find_key(s2, k2) {
                Some(j) => {
                    if j < s.len() {
                        assert(s[j].0 != k2);
                    }
                },
                None => {},
            }
        },
    }
}

/// After an upsert the key is bound to the new value.
pub proof fn lemma_upsert_same(s: Seq<(Seq<char>, Seq<char>)>, k: Seq<char>, v: Seq<char>)
    ensures
        lookup(upsert(s, k, v), k) == Some(v),
{
    lemma_find_key_props(s, k);
    let s2 = upsert(s, k, v);
    match find_key(s, k) {
        Some(i) => {
            assert(s2[i].0 == k && s2[i].1 == v);
            assert(forall|m: int| 0 <= m < i ==> (#[trigger] s2[m].0) != k);
            lemma_find_key_at(s2, k, i);
        },
        None => {
            assert(s2[s.len() as int].0 == k && s2[s.len() as int].1 == v);
            assert(forall|m: int| 0 <= m < s.len() ==> (#[trigger] s2[m].0) != k);
            lemma_find_key_at(s2, k, s.len() as int);
        },
    }
}

/// An upsert keeps keys distinct.
pub proof fn lemma_upsert_distinct(s: Seq<(Seq<char>, Seq<char>)>, k: Seq<char>, v: Seq<char>)
    requires
        distinct_keys(s),
    ensures
        distinct_keys(upsert(s, k, v)),
{
    lemma_find_key_props(s, k);
}

/// An upsert of a valid pair keeps the whole environment well-formed.
pub proof fn lemma_upsert_wf(s: Seq<(Seq<char>, Seq<char>)>, k: Seq<char>, v: Seq<char>)
    requires
        env_wf(s),
        valid_key(k),
        valid_value(v),
    ensures
        env_wf(upsert(s, k, v)),
{
    lemma_find_key_props(s, k);
    lemma_upsert_distinct(s, k, v);
    let s2 = upsert(s, k, v);
    assert forall|i: int| 0 <= i < s2.len() implies valid_key(#[trigger] s2[i].0) && valid_value(
        s2[i].1,
    ) by {
        if i < s.len() && s2[i] == s[i] {
            assert(valid_key(s[i].0) && valid_value(s[i].1));
        }
    }
}

/// A named set of environment variables, in insertion order.
#[derive(Debug)]
pub struct Environment {
    pub vars: Vec<(String, String)>,
}

impl View for Environment {
    type V = Seq<(Seq<char>, Seq<char>)>;

    open spec fn view(&self) -> Seq<(Seq<char>, Seq<char>)> {
        self.vars.deep_view()
    }
}

impl Environment {
    /// The empty environment.
    pub fn new() -> (r: Environment)
        ensures
            r@ == Seq::<(Seq<char>, Seq<char>)>::empty(),
    {
        let e = Environment { vars: Vec::new() };
        proof {
            assert(e@ =~= Seq::<(Seq<char>, Seq<char>)>::empty());
        }
        e
    }

    /// The number of variables held.
    pub fn len(&self) -> (r: usize)
        ensures
            r == self@.len(),
    {
        self.vars.len()
    }

    /// Bind `key` to `value`: overwrite in place if the key is present,
    /// append otherwise.
    pub fn set_var(&mut self, key: String, value: String)
        ensures
            final(self)@ == upsert(old(self)@, key@, value@),
    {
        let n = self.vars.len();
        let mut i: usize = 0;
        while i < n
            invariant
                n == self.vars.len(),
                i <= n,
                *self == *old(self),
                forall|m: int| 0 <= m < i ==> (#[trigger] old(self)@[m].0) != key@,
            decreases n - i,
        {
            if self.vars[i].0 == key {
                proof {
                    lemma_find_key_at(old(self)@, key@, i as int);
                }
                self.vars[i] = (key, value);
                proof {
                    assert(self@ =~= upsert(old(self)@, key@, value@));
                }
                return;
            }
            i += 1;
        }
        proof {
            lemma_find_key_props(old(self)@, key@);
            if find_key(old(self)@, key@) is Some {
                let j = find_key(old(self)@, key@)->Some_0;
                assert(old(self)@[j].0 != key@);
            }
        }
        self.vars.push((key, value));
        proof {
            assert(self@ =~= old(self)@.push((key@, value@)));
        }
    }

    /// The value bound to `key`, if any.
    pub fn get(&self, key: &str) -> (r: Option<String>)
        ensures
            match r {
                Some(v) => lookup(self@, key@) == Some(v@),
                None => lookup(self@, key@) is None,
            },
    {
        let wanted = String::from_str(key);
        let n = self.vars.len();
        let mut i: usize = 0;
        while i < n
            invariant
                n == self.vars.len(),
                wanted@ == key@,
                i <= n,
                forall|m: int| 0 <= m < i ==> (#[trigger] self@[m].0) != key@,
            decreases n - i,
        {
            if self.vars[i].0 == wanted {
                proof {
                    lemma_find_key_at(self@, key@, i as int);
                }
                return Some(self.vars[i].1.clone());
            }
            i += 1;
        }
        proof {
            lemma_find_key_props(self@, key@);
            if find_key(self@, key@) is Some {
                let j = find_key(self@, key@)->Some_0;
                assert(self@[j].0 != key@);
            }
        }
        None
    }
}

} // verus!
