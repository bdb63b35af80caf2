use vstd::prelude::*;
use vstd::multiset::Multiset;

use crate::topic::html_escaped;

verus! {

// ---------------------------------------------------------------------------
// Association lists
//
// The store keeps every keyed collection as a vector of pairs with pairwise
// distinct keys; `idx_of` and `lookup` are the common model of those vectors.
// ---------------------------------------------------------------------------

/// Index of the first pair whose key is `k`, or -1.
pub open spec fn idx_of<K, V>(s: Seq<(K, V)>, k: K) -> int
    decreases s.len(),
{
    if s.len() == 0 {
        -1
    } else if s[0].0 == k {
        0
    } else if idx_of(s.drop_first(), k) < 0 {
        -1
    } else {
        idx_of(s.drop_first(), k) + 1
    }
}

pub open spec fn has_key<K, V>(s: Seq<(K, V)>, k: K) -> bool {
    idx_of(s, k) >= 0
}

pub open spec fn lookup<K, V>(s: Seq<(K, V)>, k: K) -> Option<V> {
    if idx_of(s, k) >= 0 {
        Some(s[idx_of(s, k)].1)
    } else {
        None
    }
}

pub open spec fn unique_keys<K, V>(s: Seq<(K, V)>) -> bool {
    forall|i: int, j: int| 0 <= i < j < s.len() ==> s[i].0 != s[j].0
}

pub proof fn lemma_idx_of_range<K, V>(s: Seq<(K, V)>, k: K)
    ensures
        -1 <= idx_of(s, k) < s.len(),
        idx_of(s, k) >= 0 ==> s[idx_of(s, k)].0 == k,
        idx_of(s, k) >= 0 ==> forall|j: int| 0 <= j < idx_of(s, k) ==> s[j].0 != k,
        idx_of(s, k) == -1 ==> forall|j: int| 0 <= j < s.len() ==> s[j].0 != k,
    decreases s.len(),
{
    if s.len() > 0 && s[0].0 != k {
        lemma_idx_of_range(s.drop_first(), k);
        assert forall|j: int| 0 <= j < s.len() && idx_of(s, k) == -1 implies s[j].0 != k by {
            if j > 0 {
                assert(s.drop_first()[j - 1] == s[j]);
            }
        }
        if idx_of(s, k) >= 0 {
            assert(s[idx_of(s, k)] == s.drop_first()[idx_of(s.drop_first(), k)]);
            assert forall|j: int| 0 <= j < idx_of(s, k) implies s[j].0 != k by {
                if j > 0 {
                    assert(s.drop_first()[j - 1] == s[j]);
                }
            }
        }
    }
}

pub proof fn lemma_idx_of_at<K, V>(s: Seq<(K, V)>, k: K, i: int)
    requires
        0 <= i < s.len(),
        s[i].0 == k,
        forall|j: int| 0 <= j < i ==> s[j].0 != k,
    ensures
        idx_of(s, k) == i,
    decreases s.len(),
{
    if i > 0 {
        assert(s[0].0 != k);
        assert forall|j: int| 0 <= j < i - 1 implies s.drop_first()[j].0 != k by {
            assert(s.drop_first()[j] == s[j + 1]);
        }
        assert(s.drop_first()[i - 1] == s[i]);
        lemma_idx_of_at(s.drop_first(), k, i - 1);
    }
}

pub proof fn lemma_idx_of_none<K, V>(s: Seq<(K, V)>, k: K)
    requires
        forall|j: int| 0 <= j < s.len() ==> s[j].0 != k,
    ensures
        idx_of(s, k) == -1,
    decreases s.len(),
{
    if s.len() > 0 {
        assert forall|j: int| 0 <= j < s.drop_first().len() implies s.drop_first()[j].0 != k by {
            assert(s.drop_first()[j] == s[j + 1]);
        }
        lemma_idx_of_none(s.drop_first(), k);
    }
}

/// After appending a fresh key, it is found at the end and other lookups are
/// unchanged.
pub proof fn lemma_idx_of_push<K, V>(s: Seq<(K, V)>, p: (K, V), k: K)
    ensures
        p.0 == k && !has_key(s, k) ==> idx_of(s.push(p), k) == s.len(),
        p.0 != k ==> idx_of(s.push(p), k) == idx_of(s, k),
{
    lemma_idx_of_range(s, k);
    if p.0 == k && !has_key(s, k) {
        assert(s.push(p)[s.len() as int].0 == k);
        assert forall|j: int| 0 <= j < s.len() implies s.push(p)[j].0 != k by {
            assert(s.push(p)[j] == s[j]);
        }
        lemma_idx_of_at(s.push(p), k, s.len() as int);
    }
    if p.0 != k {
        if idx_of(s, k) >= 0 {
            assert(s.push(p)[idx_of(s, k)] == s[idx_of(s, k)]);
            assert forall|j: int| 0 <= j < idx_of(s, k) implies s.push(p)[j].0 != k by {
                assert(s.push(p)[j] == s[j]);
            }
            lemma_idx_of_at(s.push(p), k, idx_of(s, k));
        } else {
            assert forall|j: int| 0 <= j < s.push(p).len() implies s.push(p)[j].0 != k by {
                if j < s.len() {
                    assert(s.push(p)[j] == s[j]);
                }
            }
            lemma_idx_of_none(s.push(p), k);
        }
    }
}

/// After overwriting the value at an existing key's index, that key still maps
/// there and other lookups are unchanged.
pub proof fn lemma_idx_of_update<K, V>(s: Seq<(K, V)>, i: int, p: (K, V), k: K)
    requires
        0 <= i < s.len(),
        s[i].0 == p.0,
    ensures
        p.0 == k ==> idx_of(s.update(i, p), k) == idx_of(s, k),
        p.0 != k ==> idx_of(s.update(i, p), k) == idx_of(s, k),
        idx_of(s.update(i, p), k) == idx_of(s, k),
{
    lemma_idx_of_range(s, k);
    let t = s.update(i, p);
    if idx_of(s, k) >= 0 {
        let w = idx_of(s, k);
        if s[w].0 == p.0 && w != i {
            // the key occurs at w; position i holds the same key only if i == w
            // or keys repeat; handle both directions below
        }
        if t[w].0 == k {
            assert forall|j: int| 0 <= j < w implies t[j].0 != k by {
                if j != i {
                    assert(t[j] == s[j]);
                } else {
                    assert(t[j].0 == p.0);
                    assert(s[j].0 == p.0);
                }
            }
            lemma_idx_of_at(t, k, w);
        } else {
            // t[w].0 != k means i == w and p.0 != k, but s[i].0 == p.0 == s[w].0 == k
            assert(i == w);
            assert(s[i].0 == k);
            assert(p.0 == k);
            assert(false);
        }
    } else {
        assert forall|j: int| 0 <= j < t.len() implies t[j].0 != k by {
            if j != i {
                assert(t[j] == s[j]);
            } else {
                assert(s[j].0 == p.0);
            }
        }
        lemma_idx_of_none(t, k);
    }
}

// ---------------------------------------------------------------------------
// Users
// ---------------------------------------------------------------------------

pub enum UserBanResult {
    Banned,
    AlreadyInList,
    SizeLimitReached,
}

pub struct UserData {
    pub display_name: String,
    pub rating: u32,
}

pub ghost struct UserDataView {
    pub display_name: Seq<char>,
    pub rating: int,
}

impl View for UserData {
    type V = UserDataView;

    open spec fn view(&self) -> UserDataView {
        UserDataView { display_name: self.display_name@, rating: self.rating as int }
    }
}

impl DeepView for UserData {
    type V = UserDataView;

    open spec fn deep_view(&self) -> UserDataView {
        self.view()
    }
}

impl Clone for UserData {
    fn clone(&self) -> (r: UserData)
        ensures
            r@ == self@,
    {
        UserData { display_name: self.display_name.clone(), rating: self.rating }
    }
}

impl UserData {
    /// The name as it is rendered into messages.
    pub fn display_name(&self) -> (r: String)
        ensures
            r@ == html_escaped(self@.display_name),
    {
        crate::topic::encode(&self.display_name)
    }
}


// ---------------------------------------------------------------------------
// Small helpers on plain integer lists
// ---------------------------------------------------------------------------

/// The list with the first occurrence of `x` removed.
pub open spec fn remove_first_spec(s: Seq<i64>, x: i64) -> Seq<i64>
    decreases s.len(),
{
    if s.len() == 0 {
        s
    } else if s[0] == x {
        s.drop_first()
    } else {
        seq![s[0]] + remove_first_spec(s.drop_first(), x)
    }
}

proof fn lemma_remove_first_len(s: Seq<i64>, x: i64)
    ensures
        s.contains(x) ==> remove_first_spec(s, x).len() == s.len() - 1,
        !s.contains(x) ==> remove_first_spec(s, x) == s,
    decreases s.len(),
{
    if s.len() > 0 {
        if s[0] == x {
            assert(s.contains(x));
        } else {
            lemma_remove_first_len(s.drop_first(), x);
            assert(s.contains(x) ==> s.drop_first().contains(x)) by {
                if s.contains(x) {
                    let w = choose|w: int| 0 <= w < s.len() && s[w] == x;
                    assert(s.drop_first()[w - 1] == x);
                }
            }
            if !s.contains(x) {
                assert(remove_first_spec(s, x) =~= s);
            }
        }
    }
}

/// Membership after removing the first occurrence, on lists without
/// duplicates.
proof fn lemma_remove_first_unique(s: Seq<i64>, x: i64)
    requires
        forall|i: int, j: int| 0 <= i < j < s.len() ==> s[i] != s[j],
    ensures
        !remove_first_spec(s, x).contains(x),
        forall|y: i64| y != x ==> remove_first_spec(s, x).contains(y) == s.contains(y),
        forall|i: int, j: int|
            0 <= i < j < remove_first_spec(s, x).len() ==> remove_first_spec(s, x)[i]
                != remove_first_spec(s, x)[j],
    decreases s.len(),
{
    let r = remove_first_spec(s, x);
    if s.len() == 0 {
    } else if s[0] == x {
        assert(r == s.drop_first());
        assert forall|w: int| 0 <= w < r.len() implies r[w] != x by {
            assert(r[w] == s[w + 1]);
        }
        assert(!r.contains(x));
        assert forall|y: i64| y != x implies r.contains(y) == s.contains(y) by {
            if r.contains(y) {
                let w = choose|w: int| 0 <= w < r.len() && r[w] == y;
                assert(s[w + 1] == y);
            }
            if s.contains(y) {
                let w = choose|w: int| 0 <= w < s.len() && s[w] == y;
                assert(w != 0);
                assert(r[w - 1] == y);
            }
        }
    } else {
        let t = s.drop_first();
        assert(forall|i: int, j: int| 0 <= i < j < t.len() ==> t[i] != t[j]) by {
            assert forall|i: int, j: int| 0 <= i < j < t.len() implies t[i] != t[j] by {
                assert(t[i] == s[i + 1]);
                assert(t[j] == s[j + 1]);
            }
        }
        lemma_remove_first_unique(t, x);
        let rt = remove_first_spec(t, x);
        assert(r == seq![s[0]] + rt);
        assert(r[0] == s[0]);
        assert forall|w: int| 0 <= w < r.len() implies r[w] != x by {
            if w == 0 {
            } else {
                assert(r[w] == rt[w - 1]);
                assert(rt.contains(rt[w - 1]) || true);
                if rt[w - 1] == x {
                    assert(rt.contains(x));
                }
            }
        }
        assert(!r.contains(x));
        assert forall|y: i64| y != x implies r.contains(y) == s.contains(y) by {
            if r.contains(y) {
                let w = choose|w: int| 0 <= w < r.len() && r[w] == y;
                if w == 0 {
                    assert(s[0] == y);
                } else {
                    assert(rt.contains(y));
                    assert(t.contains(y));
                    let u = choose|u: int| 0 <= u < t.len() && t[u] == y;
                    assert(s[u + 1] == y);
                }
            }
            if s.contains(y) {
                let w = choose|w: int| 0 <= w < s.len() && s[w] == y;
                if w == 0 {
                } else {
                    assert(t[w - 1] == y);
                    assert(t.contains(y));
                    assert(rt.contains(y));
                    let u = choose|u: int| 0 <= u < rt.len() && rt[u] == y;
                    assert(r[u + 1] == y);
                }
            }
        }
        assert forall|i: int, j: int| 0 <= i < j < r.len() implies r[i] != r[j] by {
            if i == 0 {
                assert(r[j] == rt[j - 1]);
                if r[0] == rt[j - 1] {
                    assert(rt.contains(s[0]));
                    assert(t.contains(s[0]));
                    let u = choose|u: int| 0 <= u < t.len() && t[u] == s[0];
                    assert(s[u + 1] == s[0]);
                }
            } else {
                assert(r[i] == rt[i - 1]);
                assert(r[j] == rt[j - 1]);
            }
        }
    }
}

fn contains_i64(v: &Vec<i64>, x: i64) -> (r: bool)
    ensures
        r == v@.contains(x),
{
    let mut i: usize = 0;
    while i < v.len()
        invariant
            i <= v@.len(),
            forall|j: int| 0 <= j < i ==> v@[j] != x,
        decreases v@.len() - i,
    {
        if v[i] == x {
            return true;
        }
        i += 1;
    }
    false
}

proof fn lemma_remove_first_at(s: Seq<i64>, x: i64, p: int)
    requires
        0 <= p < s.len(),
        s[p] == x,
        forall|j: int| 0 <= j < p ==> s[j] != x,
    ensures
        remove_first_spec(s, x) == s.subrange(0, p) + s.skip(p + 1),
    decreases p,
{
    if p == 0 {
        assert(remove_first_spec(s, x) == s.drop_first());
        assert(s.drop_first() =~= s.subrange(0, 0) + s.skip(1));
    } else {
        let t = s.drop_first();
        assert(t[p - 1] == s[p]);
        assert forall|j: int| 0 <= j < p - 1 implies t[j] != x by {
            assert(t[j] == s[j + 1]);
        }
        lemma_remove_first_at(t, x, p - 1);
        assert(remove_first_spec(s, x) == seq![s[0]] + (t.subrange(0, p - 1) + t.skip(p)));
        assert(seq![s[0]] + (t.subrange(0, p - 1) + t.skip(p)) =~= s.subrange(0, p) + s.skip(p + 1));
    }
}

fn find_i64(v: &Vec<i64>, x: i64) -> (res: Option<usize>)
    ensures
        match res {
            Some(p) => p < v@.len() && v@[p as int] == x && forall|j: int| 0 <= j < p ==> v@[j] != x,
            None => !v@.contains(x),
        },
{
    let n = v.len();
    let mut i: usize = 0;
    while i < n
        invariant
            n == v@.len(),
            i <= n,
            forall|j: int| 0 <= j < i ==> v@[j] != x,
        decreases n - i,
    {
        if v[i] == x {
            return Some(i);
        }
        i += 1;
    }
    proof {
        if v@.contains(x) {
            let w = choose|w: int| 0 <= w < v@.len() && v@[w] == x;
        }
    }
    None
}

fn remove_first_i64(v: &Vec<i64>, x: i64) -> (res: Vec<i64>)
    ensures
        res@ == remove_first_spec(v@, x),
{
    let n = v.len();
    match find_i64(v, x) {
        None => {
            let mut r: Vec<i64> = Vec::new();
            let mut i: usize = 0;
            while i < n
                invariant
                    n == v@.len(),
                    i <= n,
                    r@ == v@.subrange(0, i as int),
                decreases n - i,
            {
                r.push(v[i]);
                proof {
                    assert(v@.subrange(0, i as int).push(v@[i as int]) =~= v@.subrange(0, i + 1));
                }
                i += 1;
            }
            proof {
                lemma_remove_first_len(v@, x);
                assert(r@ =~= v@);
            }
            r
        },
        Some(p) => {
            proof {
                lemma_remove_first_at(v@, x, p as int);
            }
            let mut r: Vec<i64> = Vec::new();
            let mut i: usize = 0;
            while i < n
                invariant
                    n == v@.len(),
                    p < n,
                    i <= n,
                    i <= p ==> r@ == v@.subrange(0, i as int),
                    i > p ==> r@ == v@.subrange(0, p as int) + v@.subrange(p + 1, i as int),
                decreases n - i,
            {
                if i != p {
                    r.push(v[i]);
                    proof {
                        if i < p {
                            assert(v@.subrange(0, i as int).push(v@[i as int]) =~= v@.subrange(0, i + 1));
                        } else {
                            assert((v@.subrange(0, p as int) + v@.subrange(p + 1, i as int)).push(v@[i as int]) =~= v@.subrange(0, p as int) + v@.subrange(p + 1, i + 1));
                        }
                    }
                } else {
                    proof {
                        assert(v@.subrange(0, p as int) + v@.subrange(p + 1, i + 1) =~= v@.subrange(0, p as int));
                    }
                }
                i += 1;
            }
            proof {
                assert(v@.subrange(p + 1, n as int) =~= v@.skip(p + 1));
            }
            r
        },
    }
}
// ---------------------------------------------------------------------------
// The store
// ---------------------------------------------------------------------------

pub fn copy_i64_vec(v: &Vec<i64>) -> (res: Vec<i64>)
    ensures
        res@ == v@,
{
    let n = v.len();
    let mut r: Vec<i64> = Vec::new();
    let mut i: usize = 0;
    while i < n
        invariant
            n == v@.len(),
            i <= n,
            r@ == v@.subrange(0, i as int),
        decreases n - i,
    {
        r.push(v[i]);
        proof {
            assert(v@.subrange(0, i as int).push(v@[i as int]) =~= v@.subrange(0, i + 1));
        }
        i += 1;
    }
    proof {
        assert(r@ =~= v@);
    }
    r
}

/// The capacity of a personal ban list.
pub const MAX_BAN_LIST: usize = 50;

/// How many recent opponents are remembered.
pub const STORE_PLAYED: usize = 10;

/// The rating a new player starts with.
pub const START_RATING: u32 = 15000;

/// A bounded list with pairwise distinct entries.
pub open spec fn list_ok(s: Seq<i64>, cap: int) -> bool {
    s.len() <= cap && (forall|i: int, j: int| 0 <= i < j < s.len() ==> s[i] != s[j])
}

/// How a recent-opponents list absorbs one opponent: an already-known
/// opponent moves to the tail, a new one is appended, evicting the oldest
/// entry when the list is full.
pub open spec fn push_recent(s: Seq<i64>, x: i64) -> Seq<i64> {
    if s.contains(x) {
        remove_first_spec(s, x).push(x)
    } else if s.len() >= 10 {
        s.drop_first().push(x)
    } else {
        s.push(x)
    }
}

/// One user's recent-opponents list after a game against every opponent in
/// `xs`, in order.
pub open spec fn push_recent_all(s: Seq<i64>, xs: Seq<i64>, u: i64) -> Seq<i64>
    decreases xs.len(),
{
    if xs.len() == 0 {
        s
    } else {
        let s2 = if xs[0] == u {
            s
        } else {
            push_recent(s, xs[0])
        };
        push_recent_all(s2, xs.drop_first(), u)
    }
}

proof fn lemma_push_recent_ok(s: Seq<i64>, x: i64)
    requires
        list_ok(s, 10),
    ensures
        list_ok(push_recent(s, x), 10),
        push_recent(s, x).contains(x),
    decreases s.len(),
{
    let r = push_recent(s, x);
    if s.contains(x) {
        lemma_remove_first_unique(s, x);
        lemma_remove_first_len(s, x);
        let t = remove_first_spec(s, x);
        assert forall|i: int, j: int| 0 <= i < j < r.len() implies r[i] != r[j] by {
            if j < t.len() {
            } else {
                assert(r[j] == x);
                assert(r[i] == t[i]);
                if t[i] == x {
                    assert(t.contains(x));
                }
            }
        }
        assert(r[r.len() - 1] == x);
    } else if s.len() >= 10 {
        let t = s.drop_first();
        assert forall|i: int, j: int| 0 <= i < j < r.len() implies r[i] != r[j] by {
            if j < t.len() {
                assert(t[i] == s[i + 1]);
                assert(t[j] == s[j + 1]);
            } else {
                assert(r[j] == x);
                assert(r[i] == t[i]);
                if t[i] == x {
                    assert(s[i + 1] == x);
                    assert(s.contains(x));
                }
            }
        }
        assert(r[r.len() - 1] == x);
    } else {
        assert forall|i: int, j: int| 0 <= i < j < r.len() implies r[i] != r[j] by {
            if j == r.len() - 1 {
                if s[i] == x {
                    assert(s.contains(x));
                }
            }
        }
        assert(r[r.len() - 1] == x);
    }
}


proof fn lemma_views_unchanged(a: Data, b: Data)
    ensures
        a.users == b.users ==> a.um() == b.um(),
        a.sets == b.sets ==> a.sm() == b.sm(),
        a.played == b.played ==> a.pm() == b.pm(),
        a.blocked == b.blocked ==> a.bv() == b.bv(),
        a.ban_lists == b.ban_lists ==> a.bl() == b.bl(),
        a.last_played == b.last_played ==> a.lp() == b.lp(),
        a.active == b.active ==> a.av() == b.av(),
        a.was_active == b.was_active ==> a.wv() == b.wv(),
        a.game_states == b.game_states ==> a.gm() == b.gm(),
{
    if a.users == b.users {
        assert(a.um() =~= b.um());
    }
    if a.sets == b.sets {
        assert(a.sm() =~= b.sm());
    }
    if a.played == b.played {
        assert(a.pm() =~= b.pm());
    }
    if a.blocked == b.blocked {
        assert(a.bv() =~= b.bv());
    }
    if a.ban_lists == b.ban_lists {
        assert(a.bl() =~= b.bl());
    }
    if a.last_played == b.last_played {
        assert(a.lp() =~= b.lp());
    }
    if a.active == b.active {
        assert(a.av() =~= b.av());
    }
    if a.was_active == b.was_active {
        assert(a.wv() =~= b.wv());
    }
    if a.game_states == b.game_states {
        assert(a.gm() =~= b.gm());
    }
}


/// The blocked-set pairs with every occurrence of `(u, p)` removed.
pub open spec fn drop_pair(s: Seq<(int, Seq<char>)>, u: int, p: Seq<char>) -> Seq<(int, Seq<char>)>
    decreases s.len(),
{
    if s.len() == 0 {
        s
    } else if s[0].0 == u && s[0].1 == p {
        drop_pair(s.drop_first(), u, p)
    } else {
        seq![s[0]] + drop_pair(s.drop_first(), u, p)
    }
}

proof fn lemma_drop_pair_contains(s: Seq<(int, Seq<char>)>, u: int, p: Seq<char>)
    ensures
        !drop_pair(s, u, p).contains((u, p)),
        forall|q: (int, Seq<char>)|
            q != (u, p) ==> drop_pair(s, u, p).contains(q) == s.contains(q),
    decreases s.len(),
{
    let r = drop_pair(s, u, p);
    if s.len() == 0 {
    } else {
        lemma_drop_pair_contains(s.drop_first(), u, p);
        let t = s.drop_first();
        let rt = drop_pair(t, u, p);
        if s[0].0 == u && s[0].1 == p {
            assert(r == rt);
            assert forall|q: (int, Seq<char>)|
                q != (u, p) implies r.contains(q) == s.contains(q) by {
                if r.contains(q) {
                    assert(t.contains(q));
                    let v = choose|v: int| 0 <= v < t.len() && t[v] == q;
                    assert(s[v + 1] == q);
                }
                if s.contains(q) {
                    let w = choose|w: int| 0 <= w < s.len() && s[w] == q;
                    assert(w != 0) by {
                        if w == 0 {
                            assert(q.0 == u && q.1 == p);
                            assert(q == (u, p));
                        }
                    }
                    assert(t[w - 1] == q);
                    assert(t.contains(q));
                    assert(r.contains(q));
                }
            }
        } else {
            assert(r == seq![s[0]] + rt);
            assert(r[0] == s[0]);
            assert(s[0] != (u, p)) by {
                if s[0] == (u, p) {
                    assert(s[0].0 == u && s[0].1 == p);
                }
            }
            assert forall|w: int| 0 <= w < r.len() implies r[w] != (u, p) by {
                if w > 0 {
                    assert(r[w] == rt[w - 1]);
                    if rt[w - 1] == (u, p) {
                        assert(rt.contains((u, p)));
                    }
                }
            }
            assert(!r.contains((u, p))) by {
                if r.contains((u, p)) {
                    let w = choose|w: int| 0 <= w < r.len() && r[w] == (u, p);
                }
            }
            assert forall|q: (int, Seq<char>)|
                q != (u, p) implies r.contains(q) == s.contains(q) by {
                if r.contains(q) {
                    let w = choose|w: int| 0 <= w < r.len() && r[w] == q;
                    if w == 0 {
                        assert(s[0] == q);
                    } else {
                        assert(rt[w - 1] == q);
                        assert(rt.contains(q));
                        assert(t.contains(q));
                        let v = choose|v: int| 0 <= v < t.len() && t[v] == q;
                        assert(s[v + 1] == q);
                    }
                }
                if s.contains(q) {
                    let w = choose|w: int| 0 <= w < s.len() && s[w] == q;
                    if w == 0 {
                        assert(r[0] == q);
                    } else {
                        assert(t[w - 1] == q);
                        assert(t.contains(q));
                        assert(rt.contains(q));
                        let v = choose|v: int| 0 <= v < rt.len() && rt[v] == q;
                        assert(r[v + 1] == q);
                    }
                }
            }
        }
    }
}

proof fn lemma_drop_pair_snoc(s: Seq<(int, Seq<char>)>, q: (int, Seq<char>), u: int, p: Seq<char>)
    ensures
        q.0 == u && q.1 == p ==> drop_pair(s.push(q), u, p) == drop_pair(s, u, p),
        !(q.0 == u && q.1 == p) ==> drop_pair(s.push(q), u, p) == drop_pair(s, u, p).push(q),
    decreases s.len(),
{
    if s.len() == 0 {
        assert(s.push(q)[0] == q);
        assert(s.push(q).drop_first() =~= Seq::<(int, Seq<char>)>::empty());
        if q.0 == u && q.1 == p {
            assert(drop_pair(s.push(q), u, p) == drop_pair(Seq::<(int, Seq<char>)>::empty(), u, p));
        } else {
            assert(drop_pair(s.push(q), u, p) == seq![q] + drop_pair(
                Seq::<(int, Seq<char>)>::empty(),
                u,
                p,
            ));
            assert(seq![q] + Seq::<(int, Seq<char>)>::empty() =~= drop_pair(s, u, p).push(q));
        }
    } else {
        assert(s.push(q)[0] == s[0]);
        assert(s.push(q).drop_first() =~= s.drop_first().push(q));
        lemma_drop_pair_snoc(s.drop_first(), q, u, p);
        if s[0].0 == u && s[0].1 == p {
        } else {
            if !(q.0 == u && q.1 == p) {
                assert(drop_pair(s.push(q), u, p) == seq![s[0]] + drop_pair(
                    s.drop_first().push(q),
                    u,
                    p,
                ));
                assert(seq![s[0]] + drop_pair(s.drop_first(), u, p).push(q) =~= (seq![s[0]]
                    + drop_pair(s.drop_first(), u, p)).push(q));
            }
        }
    }
}

/// A list of package ids with the first occurrence of `x` removed.
pub open spec fn remove_first_view(s: Seq<Seq<char>>, x: Seq<char>) -> Seq<Seq<char>>
    decreases s.len(),
{
    if s.len() == 0 {
        s
    } else if s[0] == x {
        s.drop_first()
    } else {
        seq![s[0]] + remove_first_view(s.drop_first(), x)
    }
}

proof fn lemma_remove_first_view(s: Seq<Seq<char>>, x: Seq<char>)
    ensures
        !s.contains(x) ==> remove_first_view(s, x) == s,
        forall|p: Seq<char>|
            p != x ==> remove_first_view(s, x).contains(p) == s.contains(p),
        forall|p: Seq<char>|
            remove_first_view(s, x).contains(p) ==> s.contains(p),
    decreases s.len(),
{
    let r = remove_first_view(s, x);
    if s.len() == 0 {
    } else if s[0] == x {
        assert forall|p: Seq<char>| r.contains(p) implies s.contains(p) by {
            let w = choose|w: int| 0 <= w < r.len() && r[w] == p;
            assert(s[w + 1] == p);
        }
        assert forall|p: Seq<char>| p != x implies r.contains(p) == s.contains(p) by {
            if s.contains(p) {
                let w = choose|w: int| 0 <= w < s.len() && s[w] == p;
                assert(w != 0);
                assert(r[w - 1] == p);
            }
        }
    } else {
        lemma_remove_first_view(s.drop_first(), x);
        let t = s.drop_first();
        let rt = remove_first_view(t, x);
        assert(r == seq![s[0]] + rt);
        assert(r[0] == s[0]);
        if !s.contains(x) {
            assert(!t.contains(x)) by {
                if t.contains(x) {
                    let w = choose|w: int| 0 <= w < t.len() && t[w] == x;
                    assert(s[w + 1] == x);
                }
            }
            assert(r =~= s);
        }
        assert forall|p: Seq<char>| r.contains(p) implies s.contains(p) by {
            let w = choose|w: int| 0 <= w < r.len() && r[w] == p;
            if w == 0 {
                assert(s[0] == p);
            } else {
                assert(rt[w - 1] == p);
                assert(rt.contains(p));
                assert(t.contains(p));
                let v = choose|v: int| 0 <= v < t.len() && t[v] == p;
                assert(s[v + 1] == p);
            }
        }
        assert forall|p: Seq<char>| p != x implies r.contains(p) == s.contains(p) by {
            if s.contains(p) {
                let w = choose|w: int| 0 <= w < s.len() && s[w] == p;
                if w == 0 {
                    assert(r[0] == p);
                } else {
                    assert(t[w - 1] == p);
                    assert(t.contains(p));
                    assert(rt.contains(p));
                    let v = choose|v: int| 0 <= v < rt.len() && rt[v] == p;
                    assert(r[v + 1] == p);
                }
            }
        }
    }
}

proof fn lemma_remove_first_view_snoc(s: Seq<Seq<char>>, q: Seq<char>, x: Seq<char>)
    ensures
        s.contains(x) ==> remove_first_view(s.push(q), x) == remove_first_view(s, x).push(q),
    decreases s.len(),
{
    if s.len() > 0 && s.contains(x) {
        assert(s.push(q)[0] == s[0]);
        assert(s.push(q).drop_first() =~= s.drop_first().push(q));
        if s[0] == x {
            assert(remove_first_view(s.push(q), x) == s.drop_first().push(q));
            assert(remove_first_view(s, x).push(q) == s.drop_first().push(q));
        } else {
            assert(s.drop_first().contains(x)) by {
                let w = choose|w: int| 0 <= w < s.len() && s[w] == x;
                assert(w != 0);
                assert(s.drop_first()[w - 1] == x);
            }
            lemma_remove_first_view_snoc(s.drop_first(), q, x);
            assert(remove_first_view(s.push(q), x) =~= remove_first_view(s, x).push(q));
        }
    }
}


/// The pair view of a blocked-set vector.
pub open spec fn kept_view(s: Seq<(i64, String)>) -> Seq<(int, Seq<char>)> {
    Seq::new(s.len(), |i: int| (s[i].0 as int, s[i].1@))
}

proof fn lemma_remove_first_view_at(pre: Seq<Seq<char>>, x: Seq<char>)
    requires
        !pre.contains(x),
    ensures
        remove_first_view(pre.push(x), x) == pre,
    decreases pre.len(),
{
    if pre.len() == 0 {
        assert(pre.push(x)[0] == x);
        assert(pre.push(x).drop_first() =~= pre);
    } else {
        assert(pre.push(x)[0] == pre[0]);
        assert(pre[0] != x) by {
            if pre[0] == x {
                assert(pre.contains(x));
            }
        }
        assert(pre.push(x).drop_first() =~= pre.drop_first().push(x));
        assert(!pre.drop_first().contains(x)) by {
            if pre.drop_first().contains(x) {
                let w = choose|w: int|
                    0 <= w < pre.drop_first().len() && pre.drop_first()[w] == x;
                assert(pre[w + 1] == x);
            }
        }
        lemma_remove_first_view_at(pre.drop_first(), x);
        assert(remove_first_view(pre.push(x), x) =~= pre);
    }
}

/// Everything the system keeps between restarts, as one in-memory value; the
/// process around the library is responsible for persisting it.
pub struct Data {
    pub users: Vec<(i64, UserData)>,
    pub sets: Vec<crate::topic::TopicSet>,
    pub active: Vec<String>,
    pub was_active: Vec<String>,
    pub played: Vec<(i64, String, crate::bitset::BitSet)>,
    pub blocked: Vec<(i64, String)>,
    pub ban_lists: Vec<(i64, Vec<i64>)>,
    pub last_played: Vec<(i64, Vec<i64>)>,
    pub game_chats: Vec<i64>,
    pub next_reset: Option<u64>,
    pub game_states: Vec<(i64, crate::game::Game)>,
}

impl Data {
    /// Users keyed by account id.
    pub open spec fn um(&self) -> Seq<(int, UserDataView)> {
        Seq::new(self.users@.len(), |i: int| (self.users@[i].0 as int, self.users@[i].1@))
    }

    /// Packages keyed by package id.
    pub open spec fn sm(&self) -> Seq<(Seq<char>, crate::topic::TopicSetView)> {
        Seq::new(self.sets@.len(), |i: int| (self.sets@[i]@.id, self.sets@[i]@))
    }

    pub open spec fn av(&self) -> Seq<Seq<char>> {
        self.active.deep_view()
    }

    pub open spec fn wv(&self) -> Seq<Seq<char>> {
        self.was_active.deep_view()
    }

    /// Played bitmaps keyed by user and package.
    pub open spec fn pm(&self) -> Seq<((int, Seq<char>), crate::bitset::BitSet)> {
        Seq::new(
            self.played@.len(),
            |i: int| ((self.played@[i].0 as int, self.played@[i].1@), self.played@[i].2),
        )
    }

    /// The blocked-packages relation.
    pub open spec fn bv(&self) -> Seq<(int, Seq<char>)> {
        Seq::new(self.blocked@.len(), |i: int| (self.blocked@[i].0 as int, self.blocked@[i].1@))
    }

    /// Ban lists keyed by user.
    pub open spec fn bl(&self) -> Seq<(int, Seq<i64>)> {
        Seq::new(self.ban_lists@.len(), |i: int| (self.ban_lists@[i].0 as int, self.ban_lists@[i].1@))
    }

    /// Recent opponents keyed by user.
    pub open spec fn lp(&self) -> Seq<(int, Seq<i64>)> {
        Seq::new(
            self.last_played@.len(),
            |i: int| (self.last_played@[i].0 as int, self.last_played@[i].1@),
        )
    }

    /// Game snapshots keyed by play chat.
    pub open spec fn gm(&self) -> Seq<(i64, crate::game::GameView)> {
        Seq::new(self.game_states@.len(), |i: int| (self.game_states@[i].0, self.game_states@[i].1@))
    }

    pub open spec fn game_of(&self, chat: i64) -> Option<crate::game::GameView> {
        lookup(self.gm(), chat)
    }

    pub open spec fn user_of(&self, id: int) -> Option<UserDataView> {
        lookup(self.um(), id)
    }

    pub open spec fn set_of(&self, id: Seq<char>) -> Option<crate::topic::TopicSetView> {
        lookup(self.sm(), id)
    }

    pub open spec fn played_of(&self, user: int, id: Seq<char>) -> Option<crate::bitset::BitSet> {
        lookup(self.pm(), (user, id))
    }

    pub open spec fn blocked_has(&self, user: int, id: Seq<char>) -> bool {
        self.bv().contains((user, id))
    }

    pub open spec fn ban_list_of(&self, user: int) -> Seq<i64> {
        match lookup(self.bl(), user) {
            Some(l) => l,
            None => Seq::empty(),
        }
    }

    pub open spec fn recent_of(&self, user: int) -> Seq<i64> {
        match lookup(self.lp(), user) {
            Some(l) => l,
            None => Seq::empty(),
        }
    }

    /// The store's invariant: unique keys everywhere, bounded unique ban and
    /// recent-opponent lists, every active package once active, and bitmap
    /// counts in step with their bits.
    pub open spec fn inv(&self) -> bool {
        &&& unique_keys(self.um())
        &&& unique_keys(self.sm())
        &&& unique_keys(self.pm())
        &&& unique_keys(self.bl())
        &&& unique_keys(self.lp())
        &&& (forall|i: int| 0 <= i < self.bl().len() ==> list_ok(#[trigger] self.bl()[i].1, 50))
        &&& (forall|i: int| 0 <= i < self.lp().len() ==> list_ok(#[trigger] self.lp()[i].1, 10))
        &&& (forall|i: int| 0 <= i < self.av().len() ==> self.wv().contains(#[trigger] self.av()[i]))
        &&& (forall|i: int| 0 <= i < self.played@.len() ==> (#[trigger] self.played@[i].2).inv())
        &&& unique_keys(self.gm())
        &&& (forall|i: int| 0 <= i < self.gm().len() ==> (#[trigger] self.gm()[i]).0 == self.gm()[i].1.chat_id)
    }

    pub fn new() -> (r: Data)
        ensures
            r.inv(),
            r.users@.len() == 0,
            r.sets@.len() == 0,
            r.av().len() == 0,
            r.wv().len() == 0,
            r.played@.len() == 0,
            r.blocked@.len() == 0,
            r.ban_lists@.len() == 0,
            r.last_played@.len() == 0,
            r.game_chats@.len() == 0,
            r.next_reset is None,
            r.game_states@.len() == 0,
    {
        Data {
            users: Vec::new(),
            sets: Vec::new(),
            active: Vec::new(),
            was_active: Vec::new(),
            played: Vec::new(),
            blocked: Vec::new(),
            ban_lists: Vec::new(),
            last_played: Vec::new(),
            game_chats: Vec::new(),
            next_reset: None,
            game_states: Vec::new(),
        }
    }

    /// Clears the durable state; the in-memory package cache stays, as it
    /// did when the wiped store was re-read from disk.
    pub fn wipe(&mut self)
        requires
            old(self).inv(),
        ensures
            final(self).inv(),
            final(self).sets == old(self).sets,
            final(self).users@.len() == 0,
            final(self).av().len() == 0,
            final(self).wv().len() == 0,
            final(self).played@.len() == 0,
            final(self).blocked@.len() == 0,
            final(self).ban_lists@.len() == 0,
            final(self).last_played@.len() == 0,
            final(self).game_chats@.len() == 0,
            final(self).next_reset is None,
            final(self).game_states@.len() == 0,
    {
        self.users = Vec::new();
        self.active = Vec::new();
        self.was_active = Vec::new();
        self.played = Vec::new();
        self.blocked = Vec::new();
        self.ban_lists = Vec::new();
        self.last_played = Vec::new();
        self.game_chats = Vec::new();
        self.next_reset = None;
        self.game_states = Vec::new();
        proof {
            lemma_views_unchanged(*old(self), *self);
        }
    }

    fn find_user(&self, id: i64) -> (res: Option<usize>)
        ensures
            match res {
                Some(i) => i < self.users@.len() && idx_of(self.um(), id as int) == i,
                None => !has_key(self.um(), id as int),
            },
    {
        let n = self.users.len();
        let mut i: usize = 0;
        while i < n
            invariant
                n == self.users@.len(),
                i <= n,
                forall|j: int| 0 <= j < i ==> self.um()[j].0 != id as int,
            decreases n - i,
        {
            if self.users[i].0 == id {
                proof {
                    assert(self.um()[i as int].0 == id as int);
                    lemma_idx_of_at(self.um(), id as int, i as int);
                }
                return Some(i);
            }
            proof {
                assert(self.um()[i as int].0 == self.users@[i as int].0 as int);
            }
            i += 1;
        }
        proof {
            lemma_idx_of_none(self.um(), id as int);
        }
        None
    }

    pub fn get_user_data(&self, id: &i64) -> (res: Option<UserData>)
        ensures
            match res {
                Some(u) => self.user_of(*id as int) == Some(u@),
                None => self.user_of(*id as int) is None,
            },
    {
        match self.find_user(*id) {
            Some(i) => {
                proof {
                    lemma_idx_of_range(self.um(), *id as int);
                }
                Some(self.users[i].1.clone())
            },
            None => None,
        }
    }

    /// A fresh profile for an unknown user; a known user keeps their stored
    /// rating and gets the name they now carry.
    pub fn get_or_create_user(&self, id: i64, display_name: String) -> (res: UserData)
        ensures
            res@.display_name == display_name@,
            res@.rating == match self.user_of(id as int) {
                Some(u) => u.rating,
                None => START_RATING as int,
            },
    {
        let rating = match self.get_user_data(&id) {
            None => START_RATING,
            Some(user_data) => user_data.rating,
        };
        UserData { display_name, rating }
    }

    pub fn set_user_data(&mut self, id: i64, user_data: &UserData)
        requires
            old(self).inv(),
        ensures
            final(self).inv(),
            final(self).user_of(id as int) == Some(user_data@),
            forall|k: int|
                k != id as int ==> final(self).user_of(k) == old(self).user_of(k),
            final(self).sets == old(self).sets,
            final(self).active == old(self).active,
            final(self).was_active == old(self).was_active,
            final(self).played == old(self).played,
            final(self).blocked == old(self).blocked,
            final(self).ban_lists == old(self).ban_lists,
            final(self).last_played == old(self).last_played,
            final(self).game_chats == old(self).game_chats,
            final(self).next_reset == old(self).next_reset,
            final(self).game_states == old(self).game_states,
            final(self).um().len() <= old(self).um().len() + 1,
    {
        let ghost oldm = self.um();
        match self.find_user(id) {
            Some(i) => {
                self.users[i] = (id, user_data.clone());
                proof {
                    lemma_views_unchanged(*old(self), *self);
                    assert(self.um() =~= oldm.update(i as int, (id as int, user_data@)));
                    lemma_idx_of_range(oldm, id as int);
                    assert(oldm[i as int].0 == id as int);
                    assert forall|k: int|
                        k != id as int implies final(self).user_of(k) == old(self).user_of(k) by {
                        lemma_idx_of_update(oldm, i as int, (id as int, user_data@), k);
                        lemma_idx_of_range(oldm, k);
                        if idx_of(oldm, k) >= 0 {
                            assert(idx_of(oldm, k) != i as int);
                            assert(self.um()[idx_of(oldm, k)] == oldm[idx_of(oldm, k)]);
                        }
                    }
                    lemma_idx_of_range(oldm, id as int);
                    assert(oldm[i as int].0 == id as int);
                    assert forall|k: int| true implies idx_of(self.um(), k) == idx_of(oldm, k) by {
                        lemma_idx_of_update(oldm, i as int, (id as int, user_data@), k);
                    }
                    assert(unique_keys(self.um())) by {
                        assert forall|a: int, b: int|
                            0 <= a < b < self.um().len() implies self.um()[a].0 != self.um()[b].0 by {
                            assert(self.um()[a].0 == oldm[a].0);
                            assert(self.um()[b].0 == oldm[b].0);
                        }
                    }
                }
            },
            None => {
                self.users.push((id, user_data.clone()));
                proof {
                    lemma_views_unchanged(*old(self), *self);
                    assert(self.um() =~= oldm.push((id as int, user_data@)));
                    lemma_idx_of_push(oldm, (id as int, user_data@), id as int);
                    assert forall|k: int| k != id as int implies idx_of(self.um(), k) == idx_of(
                        oldm,
                        k,
                    ) by {
                        lemma_idx_of_push(oldm, (id as int, user_data@), k);
                    }
                    lemma_idx_of_range(oldm, id as int);
                    assert(unique_keys(self.um())) by {
                        assert forall|a: int, b: int|
                            0 <= a < b < self.um().len() implies self.um()[a].0 != self.um()[b].0 by {
                            if b < oldm.len() {
                                assert(self.um()[a].0 == oldm[a].0);
                                assert(self.um()[b].0 == oldm[b].0);
                            } else {
                                assert(self.um()[b].0 == id as int);
                                assert(self.um()[a].0 == oldm[a].0);
                            }
                        }
                    }
                    assert forall|k: int|
                        k != id as int implies final(self).user_of(k) == old(self).user_of(k) by {
                        lemma_idx_of_range(oldm, k);
                        if idx_of(oldm, k) >= 0 {
                            assert(self.um()[idx_of(oldm, k)] == oldm[idx_of(oldm, k)]);
                        }
                    }
                }
            },
        }
    }

    /// Refreshes a player profile, keeping any rating already on record.
    pub fn update_player(&mut self, id: i64, user_data: UserData) -> (res: UserData)
        requires
            old(self).inv(),
        ensures
            final(self).inv(),
            res@.display_name == user_data@.display_name,
            res@.rating == match old(self).user_of(id as int) {
                Some(u) => u.rating,
                None => user_data@.rating,
            },
            final(self).user_of(id as int) == Some(res@),
            forall|k: int|
                k != id as int ==> final(self).user_of(k) == old(self).user_of(k),
            final(self).sets == old(self).sets,
            final(self).active == old(self).active,
            final(self).played == old(self).played,
            final(self).ban_lists == old(self).ban_lists,
            final(self).last_played == old(self).last_played,
    {
        let mut user_data = user_data;
        match self.get_user_data(&id) {
            Some(old_data) => {
                user_data.rating = old_data.rating;
            },
            None => {},
        }
        let res = user_data.clone();
        self.set_user_data(id, &user_data);
        res
    }

    fn find_ban(&self, id: i64) -> (res: Option<usize>)
        ensures
            match res {
                Some(i) => i < self.ban_lists@.len() && idx_of(self.bl(), id as int) == i,
                None => !has_key(self.bl(), id as int),
            },
    {
        let n = self.ban_lists.len();
        let mut i: usize = 0;
        while i < n
            invariant
                n == self.ban_lists@.len(),
                i <= n,
                forall|j: int| 0 <= j < i ==> self.bl()[j].0 != id as int,
            decreases n - i,
        {
            if self.ban_lists[i].0 == id {
                proof {
                    assert(self.bl()[i as int].0 == id as int);
                    lemma_idx_of_at(self.bl(), id as int, i as int);
                }
                return Some(i);
            }
            proof {
                assert(self.bl()[i as int].0 == self.ban_lists@[i as int].0 as int);
            }
            i += 1;
        }
        proof {
            lemma_idx_of_none(self.bl(), id as int);
        }
        None
    }

    pub fn in_ban_list(&self, user: i64, other: i64) -> (res: bool)
        ensures
            res == self.ban_list_of(user as int).contains(other),
    {
        match self.find_ban(user) {
            None => false,
            Some(i) => {
                proof {
                    lemma_idx_of_range(self.bl(), user as int);
                }
                contains_i64(&self.ban_lists[i].1, other)
            },
        }
    }

    pub fn get_ban_list(&self, user: i64) -> (res: Vec<i64>)
        ensures
            res@ == self.ban_list_of(user as int),
    {
        match self.find_ban(user) {
            None => Vec::new(),
            Some(i) => {
                proof {
                    lemma_idx_of_range(self.bl(), user as int);
                }
                copy_i64_vec(&self.ban_lists[i].1)
            },
        }
    }

    /// Adds `other` to `user`'s ban list, refusing duplicates and anything
    /// past the capacity.
    pub fn add_to_ban_list(&mut self, user: i64, other: i64) -> (res: UserBanResult)
        requires
            old(self).inv(),
        ensures
            final(self).inv(),
            res is AlreadyInList <==> old(self).ban_list_of(user as int).contains(other),
            res is SizeLimitReached <==> (!old(self).ban_list_of(user as int).contains(other)
                && old(self).ban_list_of(user as int).len() >= 50),
            res is Banned <==> (!old(self).ban_list_of(user as int).contains(other) && old(
                self,
            ).ban_list_of(user as int).len() < 50),
            res is Banned ==> final(self).ban_list_of(user as int) == old(self).ban_list_of(
                user as int,
            ).push(other),
            !(res is Banned) ==> final(self).ban_list_of(user as int) == old(self).ban_list_of(
                user as int,
            ),
            forall|k: int| k != user as int ==> final(self).ban_list_of(k) == old(self).ban_list_of(k),
            final(self).users == old(self).users,
            final(self).last_played == old(self).last_played,
            final(self).ban_lists@.len() <= old(self).ban_lists@.len() + 1,
    {
        let ghost oldm = self.bl();
        match self.find_ban(user) {
            None => {
                let mut l: Vec<i64> = Vec::new();
                l.push(other);
                self.ban_lists.push((user, l));
                proof {
                    lemma_views_unchanged(*old(self), *self);
                    assert(l@ =~= Seq::<i64>::empty().push(other));
                    assert(self.bl() =~= oldm.push((user as int, l@)));
                    lemma_idx_of_push(oldm, (user as int, l@), user as int);
                    assert forall|k: int| k != user as int implies idx_of(self.bl(), k) == idx_of(
                        oldm,
                        k,
                    ) by {
                        lemma_idx_of_push(oldm, (user as int, l@), k);
                    }
                    assert forall|k: int|
                        k != user as int implies final(self).ban_list_of(k) == old(
                        self,
                    ).ban_list_of(k) by {
                        lemma_idx_of_range(oldm, k);
                        if idx_of(oldm, k) >= 0 {
                            assert(self.bl()[idx_of(oldm, k)] == oldm[idx_of(oldm, k)]);
                        }
                    }
                    lemma_idx_of_range(oldm, user as int);
                    assert(unique_keys(self.bl())) by {
                        assert forall|a: int, b: int|
                            0 <= a < b < self.bl().len() implies self.bl()[a].0 != self.bl()[b].0 by {
                            if b < oldm.len() {
                                assert(self.bl()[a] == oldm[a]);
                                assert(self.bl()[b] == oldm[b]);
                            } else {
                                assert(self.bl()[b].0 == user as int);
                                assert(self.bl()[a] == oldm[a]);
                            }
                        }
                    }
                    assert(old(self).ban_list_of(user as int) =~= Seq::<i64>::empty());
                    assert(final(self).ban_list_of(user as int) =~= Seq::<i64>::empty().push(other));
                    assert forall|q: int|
                        0 <= q < self.bl().len() implies list_ok(#[trigger] self.bl()[q].1, 50) by {
                        if q < oldm.len() {
                            assert(self.bl()[q] == oldm[q]);
                        } else {
                            assert(self.bl()[q].1 =~= Seq::<i64>::empty().push(other));
                        }
                    }
                }
                UserBanResult::Banned
            },
            Some(i) => {
                proof {
                    lemma_idx_of_range(oldm, user as int);
                    assert(oldm[i as int].1 == self.ban_lists@[i as int].1@);
                }
                if contains_i64(&self.ban_lists[i].1, other) {
                    return UserBanResult::AlreadyInList;
                }
                if self.ban_lists[i].1.len() >= MAX_BAN_LIST {
                    return UserBanResult::SizeLimitReached;
                }
                let mut l = copy_i64_vec(&self.ban_lists[i].1);
                l.push(other);
                self.ban_lists[i] = (user, l);
                proof {
                    lemma_views_unchanged(*old(self), *self);
                    let newpair = (user as int, old(self).ban_list_of(user as int).push(other));
                    assert(self.bl() =~= oldm.update(i as int, newpair));
                    assert forall|k: int| true implies idx_of(self.bl(), k) == idx_of(oldm, k) by {
                        lemma_idx_of_update(oldm, i as int, newpair, k);
                    }
                    assert forall|k: int|
                        k != user as int implies final(self).ban_list_of(k) == old(
                        self,
                    ).ban_list_of(k) by {
                        lemma_idx_of_range(oldm, k);
                        if idx_of(oldm, k) >= 0 {
                            assert(self.bl()[idx_of(oldm, k)] == oldm[idx_of(oldm, k)]);
                        }
                    }
                    assert(unique_keys(self.bl())) by {
                        assert forall|a: int, b: int|
                            0 <= a < b < self.bl().len() implies self.bl()[a].0 != self.bl()[b].0 by {
                            assert(self.bl()[a].0 == oldm[a].0);
                            assert(self.bl()[b].0 == oldm[b].0);
                        }
                    }
                    assert(list_ok(final(self).ban_list_of(user as int), 50)) by {
                        let olds = old(self).ban_list_of(user as int);
                        let news = olds.push(other);
                        assert forall|a: int, b: int|
                            0 <= a < b < news.len() implies news[a] != news[b] by {
                            if b == news.len() - 1 {
                                if olds[a] == other {
                                    assert(olds.contains(other));
                                }
                            }
                        }
                    }
                    assert forall|q: int|
                        0 <= q < self.bl().len() implies list_ok(#[trigger] self.bl()[q].1, 50) by {
                        if q != i as int {
                            assert(self.bl()[q] == oldm[q]);
                        } else {
                            assert(self.bl()[q].1 == final(self).ban_list_of(user as int));
                        }
                    }
                }
                UserBanResult::Banned
            },
        }
    }

    pub fn remove_from_ban_list(&mut self, user: i64, other: i64) -> (res: bool)
        requires
            old(self).inv(),
        ensures
            final(self).inv(),
            res == old(self).ban_list_of(user as int).contains(other),
            final(self).ban_list_of(user as int) == remove_first_spec(
                old(self).ban_list_of(user as int),
                other,
            ),
            res ==> !final(self).ban_list_of(user as int).contains(other),
            forall|k: int| k != user as int ==> final(self).ban_list_of(k) == old(self).ban_list_of(k),
            final(self).users == old(self).users,
            final(self).last_played == old(self).last_played,
    {
        let ghost oldm = self.bl();
        match self.find_ban(user) {
            None => {
                proof {
                    assert(old(self).ban_list_of(user as int) =~= Seq::<i64>::empty());
                }
                false
            },
            Some(i) => {
                proof {
                    lemma_idx_of_range(oldm, user as int);
                }
                let present = contains_i64(&self.ban_lists[i].1, other);
                if !present {
                    proof {
                        lemma_remove_first_len(old(self).ban_list_of(user as int), other);
                    }
                    return false;
                }
                let l = remove_first_i64(&self.ban_lists[i].1, other);
                self.ban_lists[i] = (user, l);
                proof {
                    lemma_views_unchanged(*old(self), *self);
                    let olds = old(self).ban_list_of(user as int);
                    let newpair = (user as int, remove_first_spec(olds, other));
                    assert(self.bl() =~= oldm.update(i as int, newpair));
                    assert forall|k: int| true implies idx_of(self.bl(), k) == idx_of(oldm, k) by {
                        lemma_idx_of_update(oldm, i as int, newpair, k);
                    }
                    assert forall|k: int|
                        k != user as int implies final(self).ban_list_of(k) == old(
                        self,
                    ).ban_list_of(k) by {
                        lemma_idx_of_range(oldm, k);
                        if idx_of(oldm, k) >= 0 {
                            assert(self.bl()[idx_of(oldm, k)] == oldm[idx_of(oldm, k)]);
                        }
                    }
                    assert(unique_keys(self.bl())) by {
                        assert forall|a: int, b: int|
                            0 <= a < b < self.bl().len() implies self.bl()[a].0 != self.bl()[b].0 by {
                            assert(self.bl()[a].0 == oldm[a].0);
                            assert(self.bl()[b].0 == oldm[b].0);
                        }
                    }
                    lemma_remove_first_unique(olds, other);
                    lemma_remove_first_len(olds, other);
                    assert forall|q: int|
                        0 <= q < self.bl().len() implies list_ok(#[trigger] self.bl()[q].1, 50) by {
                        if q != i as int {
                            assert(self.bl()[q] == oldm[q]);
                        } else {
                            assert(self.bl()[q].1 == remove_first_spec(olds, other));
                        }
                    }
                }
                true
            },
        }
    }
}


impl Data {
    fn find_recent(&self, id: i64) -> (res: Option<usize>)
        ensures
            match res {
                Some(i) => i < self.last_played@.len() && idx_of(self.lp(), id as int) == i,
                None => !has_key(self.lp(), id as int),
            },
    {
        let n = self.last_played.len();
        let mut i: usize = 0;
        while i < n
            invariant
                n == self.last_played@.len(),
                i <= n,
                forall|j: int| 0 <= j < i ==> self.lp()[j].0 != id as int,
            decreases n - i,
        {
            if self.last_played[i].0 == id {
                proof {
                    assert(self.lp()[i as int].0 == id as int);
                    lemma_idx_of_at(self.lp(), id as int, i as int);
                }
                return Some(i);
            }
            proof {
                assert(self.lp()[i as int].0 == self.last_played@[i as int].0 as int);
            }
            i += 1;
        }
        proof {
            lemma_idx_of_none(self.lp(), id as int);
        }
        None
    }

    pub fn get_last_played(&self, user: i64) -> (res: Vec<i64>)
        ensures
            res@ == self.recent_of(user as int),
    {
        match self.find_recent(user) {
            None => Vec::new(),
            Some(i) => {
                proof {
                    lemma_idx_of_range(self.lp(), user as int);
                }
                copy_i64_vec(&self.last_played[i].1)
            },
        }
    }

    /// Remembers `other` as `user`'s most recent opponent.
    fn add_played(&mut self, user: i64, other: i64)
        requires
            old(self).inv(),
        ensures
            final(self).inv(),
            final(self).recent_of(user as int) == push_recent(
                old(self).recent_of(user as int),
                other,
            ),
            forall|k: int| k != user as int ==> final(self).recent_of(k) == old(self).recent_of(k),
            final(self).users == old(self).users,
            final(self).sets == old(self).sets,
            final(self).active == old(self).active,
            final(self).was_active == old(self).was_active,
            final(self).played == old(self).played,
            final(self).blocked == old(self).blocked,
            final(self).ban_lists == old(self).ban_lists,
            final(self).game_chats == old(self).game_chats,
            final(self).next_reset == old(self).next_reset,
    {
        let ghost oldm = self.lp();
        match self.find_recent(user) {
            None => {
                let mut l: Vec<i64> = Vec::new();
                l.push(other);
                self.last_played.push((user, l));
                proof {
                    lemma_views_unchanged(*old(self), *self);
                    assert(l@ =~= Seq::<i64>::empty().push(other));
                    assert(self.lp() =~= oldm.push((user as int, l@)));
                    lemma_idx_of_push(oldm, (user as int, l@), user as int);
                    assert forall|k: int| k != user as int implies idx_of(self.lp(), k) == idx_of(
                        oldm,
                        k,
                    ) by {
                        lemma_idx_of_push(oldm, (user as int, l@), k);
                    }
                    assert forall|k: int|
                        k != user as int implies final(self).recent_of(k) == old(self).recent_of(
                        k,
                    ) by {
                        lemma_idx_of_range(oldm, k);
                        if idx_of(oldm, k) >= 0 {
                            assert(self.lp()[idx_of(oldm, k)] == oldm[idx_of(oldm, k)]);
                        }
                    }
                    lemma_idx_of_range(oldm, user as int);
                    assert(unique_keys(self.lp())) by {
                        assert forall|a: int, b: int|
                            0 <= a < b < self.lp().len() implies self.lp()[a].0 != self.lp()[b].0 by {
                            if b < oldm.len() {
                                assert(self.lp()[a] == oldm[a]);
                                assert(self.lp()[b] == oldm[b]);
                            } else {
                                assert(self.lp()[b].0 == user as int);
                                assert(self.lp()[a] == oldm[a]);
                            }
                        }
                    }
                    assert(old(self).recent_of(user as int) =~= Seq::<i64>::empty());
                    assert(final(self).recent_of(user as int) =~= Seq::<i64>::empty().push(other));
                    assert forall|q: int|
                        0 <= q < self.lp().len() implies list_ok(#[trigger] self.lp()[q].1, 10) by {
                        if q < oldm.len() {
                            assert(self.lp()[q] == oldm[q]);
                        } else {
                            assert(self.lp()[q].1 =~= Seq::<i64>::empty().push(other));
                        }
                    }
                }
            },
            Some(i) => {
                proof {
                    lemma_idx_of_range(oldm, user as int);
                    assert(oldm[i as int].1 == self.last_played@[i as int].1@);
                }
                let ghost olds = self.recent_of(user as int);
                let present = contains_i64(&self.last_played[i].1, other);
                let l = if present {
                    let mut l = remove_first_i64(&self.last_played[i].1, other);
                    l.push(other);
                    l
                } else if self.last_played[i].1.len() >= STORE_PLAYED {
                    let whole = &self.last_played[i].1;
                    let n = whole.len();
                    let mut l: Vec<i64> = Vec::new();
                    let mut k: usize = 1;
                    while k < n
                        invariant
                            n == whole@.len(),
                            1 <= k <= n,
                            l@ == whole@.subrange(1, k as int),
                        decreases n - k,
                    {
                        l.push(whole[k]);
                        proof {
                            assert(whole@.subrange(1, k as int).push(whole@[k as int])
                                =~= whole@.subrange(1, k + 1));
                        }
                        k += 1;
                    }
                    proof {
                        assert(l@ =~= whole@.drop_first());
                    }
                    l.push(other);
                    l
                } else {
                    let mut l = copy_i64_vec(&self.last_played[i].1);
                    l.push(other);
                    l
                };
                proof {
                    assert(l@ == push_recent(olds, other));
                }
                self.last_played[i] = (user, l);
                proof {
                    lemma_views_unchanged(*old(self), *self);
                    let newpair = (user as int, push_recent(olds, other));
                    assert(self.lp() =~= oldm.update(i as int, newpair));
                    assert forall|k: int| true implies idx_of(self.lp(), k) == idx_of(oldm, k) by {
                        lemma_idx_of_update(oldm, i as int, newpair, k);
                    }
                    assert forall|k: int|
                        k != user as int implies final(self).recent_of(k) == old(self).recent_of(
                        k,
                    ) by {
                        lemma_idx_of_range(oldm, k);
                        if idx_of(oldm, k) >= 0 {
                            assert(self.lp()[idx_of(oldm, k)] == oldm[idx_of(oldm, k)]);
                        }
                    }
                    assert(unique_keys(self.lp())) by {
                        assert forall|a: int, b: int|
                            0 <= a < b < self.lp().len() implies self.lp()[a].0 != self.lp()[b].0 by {
                            assert(self.lp()[a].0 == oldm[a].0);
                            assert(self.lp()[b].0 == oldm[b].0);
                        }
                    }
                    lemma_push_recent_ok(olds, other);
                    assert forall|q: int|
                        0 <= q < self.lp().len() implies list_ok(#[trigger] self.lp()[q].1, 10) by {
                        if q != i as int {
                            assert(self.lp()[q] == oldm[q]);
                        } else {
                            assert(self.lp()[q].1 == push_recent(olds, other));
                        }
                    }
                }
            },
        }
    }

    /// After a game, each participant remembers each other participant.
    pub fn add_game(&mut self, users: &Vec<i64>)
        requires
            old(self).inv(),
            forall|a: int, b: int| 0 <= a < b < users@.len() ==> users@[a] != users@[b],
        ensures
            final(self).inv(),
            forall|t: int|
                0 <= t < users@.len() ==> final(self).recent_of(#[trigger] users@[t] as int)
                    == push_recent_all(old(self).recent_of(users@[t] as int), users@, users@[t]),
            forall|k: int|
                (forall|j: int| 0 <= j < users@.len() ==> users@[j] as int != k)
                    ==> final(self).recent_of(k) == old(self).recent_of(k),
            final(self).users == old(self).users,
            final(self).sets == old(self).sets,
            final(self).played == old(self).played,
            final(self).ban_lists == old(self).ban_lists,
    {
        let n = users.len();
        let mut t: usize = 0;
        while t < n
            invariant
                self.inv(),
                n == users@.len(),
                t <= n,
                forall|a: int, b: int| 0 <= a < b < n ==> users@[a] != users@[b],
                forall|q: int|
                    0 <= q < t ==> self.recent_of(#[trigger] users@[q] as int) == push_recent_all(
                        old(self).recent_of(users@[q] as int),
                        users@,
                        users@[q],
                    ),
                forall|q: int|
                    t <= q < n ==> self.recent_of(#[trigger] users@[q] as int) == old(
                        self,
                    ).recent_of(users@[q] as int),
                forall|k: int|
                    (forall|j: int| 0 <= j < n ==> users@[j] as int != k) ==> self.recent_of(k)
                        == old(self).recent_of(k),
                self.users == old(self).users,
                self.sets == old(self).sets,
                self.active == old(self).active,
                self.was_active == old(self).was_active,
                self.played == old(self).played,
                self.blocked == old(self).blocked,
                self.ban_lists == old(self).ban_lists,
                self.game_chats == old(self).game_chats,
                self.next_reset == old(self).next_reset,
            decreases n - t,
        {
            let user = users[t];
            let ghost base = self.recent_of(user as int);
            let ghost old_inner = *self;
            let mut o: usize = 0;
            while o < n
                invariant
                    self.inv(),
                    n == users@.len(),
                    t < n,
                    o <= n,
                    user == users@[t as int],
                    forall|a: int, b: int| 0 <= a < b < n ==> users@[a] != users@[b],
                    self.recent_of(user as int) == push_recent_all(
                        base,
                        users@.subrange(0, o as int),
                        user,
                    ),
                    forall|k: int| k != user as int ==> self.recent_of(k) == old_inner.recent_of(k),
                    self.users == old_inner.users,
                    self.sets == old_inner.sets,
                    self.active == old_inner.active,
                    self.was_active == old_inner.was_active,
                    self.played == old_inner.played,
                    self.blocked == old_inner.blocked,
                    self.ban_lists == old_inner.ban_lists,
                    self.game_chats == old_inner.game_chats,
                    self.next_reset == old_inner.next_reset,
                decreases n - o,
            {
                let other = users[o];
                if user != other {
                    self.add_played(user, other);
                }
                proof {
                    lemma_push_all_snoc(base, users@.subrange(0, o as int), users@[o as int], user);
                    assert(users@.subrange(0, o as int).push(users@[o as int]) =~= users@.subrange(
                        0,
                        o + 1,
                    ));
                }
                o += 1;
            }
            proof {
                assert(users@.subrange(0, n as int) =~= users@);
            }
            t += 1;
        }
    }
}

proof fn lemma_push_all_snoc(s: Seq<i64>, xs: Seq<i64>, x: i64, u: i64)
    ensures
        x == u ==> push_recent_all(s, xs.push(x), u) == push_recent_all(s, xs, u),
        x != u ==> push_recent_all(s, xs.push(x), u) == push_recent(push_recent_all(s, xs, u), x),
    decreases xs.len(),
{
    if xs.len() == 0 {
        assert(xs.push(x)[0] == x);
        assert(xs.push(x).drop_first() =~= Seq::<i64>::empty());
        let s2 = if x == u {
            s
        } else {
            push_recent(s, x)
        };
        assert(push_recent_all(s, xs.push(x), u) == push_recent_all(
            s2,
            xs.push(x).drop_first(),
            u,
        ));
        assert(push_recent_all(s2, Seq::<i64>::empty(), u) == s2);
        assert(push_recent_all(s, xs, u) == s);
    } else {
        assert(xs.push(x)[0] == xs[0]);
        assert(xs.push(x).drop_first() =~= xs.drop_first().push(x));
        let s2 = if xs[0] == u {
            s
        } else {
            push_recent(s, xs[0])
        };
        assert(push_recent_all(s, xs.push(x), u) == push_recent_all(
            s2,
            xs.drop_first().push(x),
            u,
        ));
        assert(push_recent_all(s, xs, u) == push_recent_all(s2, xs.drop_first(), u));
        lemma_push_all_snoc(s2, xs.drop_first(), x, u);
    }
}

impl Data {
    // -- blocked packages ---------------------------------------------------

    pub fn is_set_blocked(&self, id: i64, set: &String) -> (res: bool)
        ensures
            res == self.blocked_has(id as int, set@),
    {
        let n = self.blocked.len();
        let mut i: usize = 0;
        while i < n
            invariant
                n == self.blocked@.len(),
                i <= n,
                forall|j: int|
                    0 <= j < i ==> !(self.blocked@[j].0 == id && self.blocked@[j].1@ == set@),
            decreases n - i,
        {
            if self.blocked[i].0 == id && crate::text::str_eq(self.blocked[i].1.as_str(), set.as_str()) {
                proof {
                    assert(self.bv()[i as int] == (id as int, set@));
                }
                return true;
            }
            i += 1;
        }
        proof {
            if self.blocked_has(id as int, set@) {
                let w = choose|w: int|
                    0 <= w < self.bv().len() && self.bv()[w] == (id as int, set@);
                assert(self.blocked@[w].0 == id && self.blocked@[w].1@ == set@);
            }
        }
        false
    }

    /// Marks or unmarks a package as blocked for a user; the result says
    /// whether anything changed.
    pub fn set_set_blocked(&mut self, id: i64, set: &String, to_block: bool) -> (res: bool)
        requires
            old(self).inv(),
        ensures
            final(self).inv(),
            res == (to_block != old(self).blocked_has(id as int, set@)),
            final(self).blocked_has(id as int, set@) == to_block,
            forall|u: int, p: Seq<char>|
                !(u == id as int && p == set@) ==> final(self).blocked_has(u, p) == old(
                    self,
                ).blocked_has(u, p),
            final(self).users == old(self).users,
            final(self).sets == old(self).sets,
            final(self).played == old(self).played,
            final(self).ban_lists == old(self).ban_lists,
            final(self).last_played == old(self).last_played,
            final(self).active == old(self).active,
            final(self).was_active == old(self).was_active,
    {
        let blocked_now = self.is_set_blocked(id, set);
        if blocked_now == to_block {
            proof {
                lemma_views_unchanged(*old(self), *self);
            }
            return false;
        }
        if to_block {
            let pair = (id, set.clone());
            self.blocked.push(pair);
            proof {
                lemma_views_unchanged(*old(self), *self);
                assert(self.bv() =~= old(self).bv().push((id as int, set@)));
                assert(self.bv()[self.bv().len() - 1] == (id as int, set@));
                assert(self.blocked_has(id as int, set@));
                assert forall|u: int, p: Seq<char>|
                    !(u == id as int && p == set@) implies final(self).blocked_has(u, p) == old(
                    self,
                ).blocked_has(u, p) by {
                    if final(self).blocked_has(u, p) {
                        let w = choose|w: int|
                            0 <= w < self.bv().len() && self.bv()[w] == (u, p);
                        assert(w < old(self).bv().len());
                        assert(old(self).bv()[w] == (u, p));
                    }
                    if old(self).blocked_has(u, p) {
                        let w = choose|w: int|
                            0 <= w < old(self).bv().len() && old(self).bv()[w] == (u, p);
                        assert(self.bv()[w] == (u, p));
                    }
                }
            }
            true
        } else {
            let n = self.blocked.len();
            let mut kept: Vec<(i64, String)> = Vec::new();
            let mut i: usize = 0;
            while i < n
                invariant
                    n == self.blocked@.len(),
                    i <= n,
                    kept_view(kept@) == drop_pair(self.bv().take(i as int), id as int, set@),
                decreases n - i,
            {
                let keep = !(self.blocked[i].0 == id && crate::text::str_eq(
                    self.blocked[i].1.as_str(),
                    set.as_str(),
                ));
                let ghost pre = kept_view(kept@);
                if keep {
                    let pair = (self.blocked[i].0, self.blocked[i].1.clone());
                    proof {
                        assert(pair.1@ == self.blocked@[i as int].1@);
                    }
                    kept.push(pair);
                    proof {
                        assert(kept_view(kept@) =~= pre.push(
                            (self.blocked@[i as int].0 as int, self.blocked@[i as int].1@),
                        ));
                    }
                }
                proof {
                    assert(self.bv().take(i as int).push(self.bv()[i as int]) =~= self.bv().take(
                        i + 1,
                    ));
                    lemma_drop_pair_snoc(
                        self.bv().take(i as int),
                        self.bv()[i as int],
                        id as int,
                        set@,
                    );
                    assert(self.bv()[i as int] == (
                        self.blocked@[i as int].0 as int,
                        self.blocked@[i as int].1@,
                    ));
                }
                i += 1;
            }
            let ghost oldd = *self;
            self.blocked = kept;
            proof {
                assert(oldd.bv().take(n as int) =~= oldd.bv());
                assert(self.bv() =~= kept_view(self.blocked@));
                assert(self.bv() == drop_pair(oldd.bv(), id as int, set@));
                lemma_drop_pair_contains(oldd.bv(), id as int, set@);
                lemma_views_unchanged(oldd, *self);
            }
            true
        }
    }

    // -- active packages ----------------------------------------------------

    pub fn get_active_set_ids(&self) -> (res: Vec<String>)
        ensures
            res.deep_view() == self.av(),
    {
        let n = self.active.len();
        let mut r: Vec<String> = Vec::new();
        let mut i: usize = 0;
        while i < n
            invariant
                n == self.active@.len(),
                i <= n,
                r@.len() == i,
                forall|j: int| 0 <= j < i ==> r@[j]@ == self.active@[j]@,
            decreases n - i,
        {
            r.push(self.active[i].clone());
            i += 1;
        }
        proof {
            assert(r.deep_view() =~= self.av());
        }
        r
    }

    pub fn get_was_active_set_ids(&self) -> (res: Vec<String>)
        ensures
            res.deep_view() == self.wv(),
    {
        let n = self.was_active.len();
        let mut r: Vec<String> = Vec::new();
        let mut i: usize = 0;
        while i < n
            invariant
                n == self.was_active@.len(),
                i <= n,
                r@.len() == i,
                forall|j: int| 0 <= j < i ==> r@[j]@ == self.was_active@[j]@,
            decreases n - i,
        {
            r.push(self.was_active[i].clone());
            i += 1;
        }
        proof {
            assert(r.deep_view() =~= self.wv());
        }
        r
    }

    pub fn is_active(&self, set_id: &String) -> (res: bool)
        ensures
            res == self.av().contains(set_id@),
    {
        contains_str_vec(&self.active, set_id)
    }

    pub fn was_active(&self, set_id: &String) -> (res: bool)
        ensures
            res == self.wv().contains(set_id@),
    {
        contains_str_vec(&self.was_active, set_id)
    }

    pub fn add_active(&mut self, set_id: &String)
        requires
            old(self).inv(),
        ensures
            final(self).inv(),
            final(self).av() == old(self).av().push(set_id@),
            final(self).wv() == old(self).wv().push(set_id@),
            final(self).users == old(self).users,
            final(self).sets == old(self).sets,
            final(self).played == old(self).played,
            final(self).blocked == old(self).blocked,
            final(self).ban_lists == old(self).ban_lists,
            final(self).last_played == old(self).last_played,
    {
        self.was_active.push(set_id.clone());
        self.active.push(set_id.clone());
        proof {
            lemma_views_unchanged(*old(self), *self);
            assert(self.av() =~= old(self).av().push(set_id@));
            assert(self.wv() =~= old(self).wv().push(set_id@));
            assert forall|i: int|
                0 <= i < self.av().len() implies self.wv().contains(#[trigger] self.av()[i]) by {
                if i < old(self).av().len() {
                    assert(old(self).wv().contains(old(self).av()[i]));
                    let w = choose|w: int|
                        0 <= w < old(self).wv().len() && old(self).wv()[w] == old(self).av()[i];
                    assert(self.wv()[w] == self.av()[i]);
                } else {
                    assert(self.av()[i] == set_id@);
                    assert(self.wv()[self.wv().len() - 1] == set_id@);
                }
            }
        }
    }

    /// Takes a package out of the active rotation; its history in the
    /// was-active list stays.
    pub fn remove_active(&mut self, set_id: &String)
        requires
            old(self).inv(),
        ensures
            final(self).inv(),
            final(self).wv() == old(self).wv(),
            !old(self).av().contains(set_id@) ==> final(self).av() == old(self).av(),
            forall|p: Seq<char>|
                p != set_id@ ==> final(self).av().contains(p) == old(self).av().contains(p),
            !final(self).av().contains(set_id@) || old(self).av().contains(set_id@),
            final(self).users == old(self).users,
            final(self).sets == old(self).sets,
            final(self).played == old(self).played,
            final(self).blocked == old(self).blocked,
            final(self).ban_lists == old(self).ban_lists,
            final(self).last_played == old(self).last_played,
    {
        let n = self.active.len();
        let present = contains_str_vec(&self.active, set_id);
        let mut kept: Vec<String> = Vec::new();
        let mut removed = false;
        let mut i: usize = 0;
        while i < n
            invariant
                n == self.active@.len(),
                i <= n,
                removed == self.av().take(i as int).contains(set_id@),
                !removed ==> kept.deep_view() == self.av().take(i as int),
                removed ==> kept.deep_view() == remove_first_view(self.av().take(i as int), set_id@),
            decreases n - i,
        {
            let matches_id = crate::text::str_eq(self.active[i].as_str(), set_id.as_str());
            let ghost pre = kept.deep_view();
            let ghost takei = self.av().take(i as int);
            if matches_id && !removed {
                removed = true;
                proof {
                    assert(self.av()[i as int] == set_id@);
                    assert(takei.push(self.av()[i as int]) =~= self.av().take(i + 1));
                    assert(self.av().take(i + 1)[i as int] == set_id@);
                    assert(self.av().take(i + 1).contains(set_id@));
                    assert(!takei.contains(set_id@));
                    lemma_remove_first_view_at(takei, set_id@);
                }
            } else {
                kept.push(self.active[i].clone());
                proof {
                    assert(kept.deep_view() =~= pre.push(self.av()[i as int]));
                    assert(takei.push(self.av()[i as int]) =~= self.av().take(i + 1));
                    if removed && takei.contains(set_id@) {
                        lemma_remove_first_view_snoc(takei, self.av()[i as int], set_id@);
                    }
                    if !(removed && takei.contains(set_id@)) {
                        assert forall|w: int|
                            0 <= w < self.av().take(i + 1).len() implies #[trigger] self.av().take(
                            i + 1,
                        )[w] != set_id@ by {
                            if w < i {
                                assert(takei[w] == self.av().take(i + 1)[w]);
                            }
                        }
                        assert(!self.av().take(i + 1).contains(set_id@));
                    }
                }
            }
            i += 1;
        }
        let ghost oldd = *self;
        self.active = kept;
        proof {
            assert(oldd.av().take(n as int) =~= oldd.av());
            lemma_views_unchanged(oldd, *self);
            lemma_remove_first_view(oldd.av(), set_id@);
            if !removed {
                assert(self.av() == oldd.av());
                assert(!oldd.av().contains(set_id@));
            } else {
                assert(self.av() == remove_first_view(oldd.av(), set_id@));
                assert(oldd.av().contains(set_id@));
            }
            assert forall|i2: int|
                0 <= i2 < self.av().len() implies self.wv().contains(#[trigger] self.av()[i2]) by {
                assert(self.av().contains(self.av()[i2]));
                assert(oldd.av().contains(self.av()[i2]));
                let w = choose|w: int| 0 <= w < oldd.av().len() && oldd.av()[w] == self.av()[i2];
                assert(oldd.wv().contains(oldd.av()[w]));
            }
        }
    }

    // -- game rooms and the decay clock ------------------------------------

    pub fn add_game_chat(&mut self, chat_id: &i64)
        requires
            old(self).inv(),
        ensures
            final(self).inv(),
            final(self).game_chats@ == old(self).game_chats@.push(*chat_id),
            final(self).users == old(self).users,
            final(self).sets == old(self).sets,
            final(self).active == old(self).active,
            final(self).was_active == old(self).was_active,
    {
        self.game_chats.push(*chat_id);
        proof {
            lemma_views_unchanged(*old(self), *self);
        }
    }

    pub fn remove_game_chat(&mut self, chat_id: &i64)
        requires
            old(self).inv(),
        ensures
            final(self).inv(),
            final(self).game_chats@ == remove_first_spec(old(self).game_chats@, *chat_id),
            final(self).users == old(self).users,
            final(self).sets == old(self).sets,
    {
        let kept = remove_first_i64(&self.game_chats, *chat_id);
        self.game_chats = kept;
        proof {
            lemma_views_unchanged(*old(self), *self);
        }
    }

    pub fn get_game_chats(&self) -> (res: Vec<i64>)
        ensures
            res@ == self.game_chats@,
    {
        copy_i64_vec(&self.game_chats)
    }

    pub fn get_next_reset(&self) -> (res: Option<u64>)
        ensures
            res == self.next_reset,
    {
        self.next_reset
    }

    pub fn set_next_reset(&mut self, time: u64)
        requires
            old(self).inv(),
        ensures
            final(self).inv(),
            final(self).next_reset == Some(time),
            final(self).users == old(self).users,
            final(self).sets == old(self).sets,
    {
        self.next_reset = Some(time);
        proof {
            lemma_views_unchanged(*old(self), *self);
        }
    }
}

fn contains_str_vec(v: &Vec<String>, x: &String) -> (res: bool)
    ensures
        res == v.deep_view().contains(x@),
{
    let n = v.len();
    let mut i: usize = 0;
    while i < n
        invariant
            n == v@.len(),
            i <= n,
            forall|j: int| 0 <= j < i ==> v@[j]@ != x@,
        decreases n - i,
    {
        if crate::text::str_eq(v[i].as_str(), x.as_str()) {
            proof {
                assert(v.deep_view()[i as int] == x@);
            }
            return true;
        }
        i += 1;
    }
    proof {
        if v.deep_view().contains(x@) {
            let w = choose|w: int| 0 <= w < v.deep_view().len() && v.deep_view()[w] == x@;
            assert(v@[w]@ == x@);
        }
    }
    false
}

impl Data {
    // -- packages -----------------------------------------------------------

    fn find_set(&self, id: &String) -> (res: Option<usize>)
        ensures
            match res {
                Some(i) => i < self.sets@.len() && idx_of(self.sm(), id@) == i,
                None => !has_key(self.sm(), id@),
            },
    {
        let n = self.sets.len();
        let mut i: usize = 0;
        while i < n
            invariant
                n == self.sets@.len(),
                i <= n,
                forall|j: int| 0 <= j < i ==> self.sm()[j].0 != id@,
            decreases n - i,
        {
            if crate::text::str_eq(self.sets[i].id.as_str(), id.as_str()) {
                proof {
                    assert(self.sm()[i as int].0 == id@);
                    lemma_idx_of_at(self.sm(), id@, i as int);
                }
                return Some(i);
            }
            proof {
                assert(self.sm()[i as int].0 == self.sets@[i as int]@.id);
            }
            i += 1;
        }
        proof {
            lemma_idx_of_none(self.sm(), id@);
        }
        None
    }

    pub fn get_set(&self, id: &String) -> (res: Option<crate::topic::TopicSet>)
        ensures
            match res {
                Some(set) => self.set_of(id@) == Some(set@),
                None => self.set_of(id@) is None,
            },
    {
        match self.find_set(id) {
            Some(i) => {
                proof {
                    lemma_idx_of_range(self.sm(), id@);
                }
                Some(self.sets[i].clone())
            },
            None => None,
        }
    }

    /// Registers or replaces a package; a package that has ever been active
    /// may only be replaced by one with the same number of topics.
    pub fn add_new_set(&mut self, id: &String, set: crate::topic::TopicSet) -> (res: bool)
        requires
            old(self).inv(),
            set@.id == id@,
        ensures
            final(self).inv(),
            res == !(old(self).wv().contains(id@) && (old(self).set_of(id@) is Some) && match old(
                self,
            ).set_of(id@) {
                Some(t) => t.topics.len() != set@.topics.len(),
                None => false,
            }),
            res ==> final(self).set_of(id@) == Some(set@),
            !res ==> final(self).set_of(id@) == old(self).set_of(id@),
            forall|k: Seq<char>| k != id@ ==> final(self).set_of(k) == old(self).set_of(k),
            final(self).users == old(self).users,
            final(self).active == old(self).active,
            final(self).was_active == old(self).was_active,
            final(self).played == old(self).played,
            final(self).ban_lists == old(self).ban_lists,
            final(self).last_played == old(self).last_played,
    {
        let ghost oldm = self.sm();
        let existing = self.find_set(id);
        if self.was_active(id) {
            match existing {
                Some(i) => {
                    proof {
                        lemma_idx_of_range(oldm, id@);
                    }
                    if self.sets[i].topics.len() != set.topics.len() {
                        proof {
                            lemma_views_unchanged(*old(self), *self);
                        }
                        return false;
                    }
                },
                None => {},
            }
        }
        match existing {
            Some(i) => {
                proof {
                    lemma_idx_of_range(oldm, id@);
                }
                self.sets[i] = set;
                proof {
                    lemma_views_unchanged(*old(self), *self);
                    assert(self.sm() =~= oldm.update(i as int, (id@, set@)));
                    assert forall|k: Seq<char>| true implies idx_of(self.sm(), k) == idx_of(
                        oldm,
                        k,
                    ) by {
                        lemma_idx_of_update(oldm, i as int, (id@, set@), k);
                    }
                    assert forall|k: Seq<char>|
                        k != id@ implies final(self).set_of(k) == old(self).set_of(k) by {
                        lemma_idx_of_range(oldm, k);
                        if idx_of(oldm, k) >= 0 {
                            assert(idx_of(oldm, k) != i as int);
                            assert(self.sm()[idx_of(oldm, k)] == oldm[idx_of(oldm, k)]);
                        }
                    }
                    assert(unique_keys(self.sm())) by {
                        assert forall|a: int, b: int|
                            0 <= a < b < self.sm().len() implies self.sm()[a].0 != self.sm()[b].0 by {
                            assert(self.sm()[a].0 == oldm[a].0);
                            assert(self.sm()[b].0 == oldm[b].0);
                        }
                    }
                }
            },
            None => {
                self.sets.push(set);
                proof {
                    lemma_views_unchanged(*old(self), *self);
                    assert(self.sm() =~= oldm.push((id@, set@)));
                    lemma_idx_of_push(oldm, (id@, set@), id@);
                    assert forall|k: Seq<char>|
                        k != id@ implies final(self).set_of(k) == old(self).set_of(k) by {
                        lemma_idx_of_push(oldm, (id@, set@), k);
                        lemma_idx_of_range(oldm, k);
                        if idx_of(oldm, k) >= 0 {
                            assert(self.sm()[idx_of(oldm, k)] == oldm[idx_of(oldm, k)]);
                        }
                    }
                    lemma_idx_of_range(oldm, id@);
                    assert(unique_keys(self.sm())) by {
                        assert forall|a: int, b: int|
                            0 <= a < b < self.sm().len() implies self.sm()[a].0 != self.sm()[b].0 by {
                            if b < oldm.len() {
                                assert(self.sm()[a] == oldm[a]);
                                assert(self.sm()[b] == oldm[b]);
                            } else {
                                assert(self.sm()[b].0 == id@);
                                assert(self.sm()[a] == oldm[a]);
                            }
                        }
                    }
                }
            },
        }
        true
    }

    // -- played bitmaps ------------------------------------------------------

    fn find_played(&self, user_id: i64, set_id: &String) -> (res: Option<usize>)
        ensures
            match res {
                Some(i) => i < self.played@.len() && idx_of(self.pm(), (user_id as int, set_id@))
                    == i,
                None => !has_key(self.pm(), (user_id as int, set_id@)),
            },
    {
        let n = self.played.len();
        let mut i: usize = 0;
        while i < n
            invariant
                n == self.played@.len(),
                i <= n,
                forall|j: int| 0 <= j < i ==> self.pm()[j].0 != (user_id as int, set_id@),
            decreases n - i,
        {
            if self.played[i].0 == user_id && crate::text::str_eq(
                self.played[i].1.as_str(),
                set_id.as_str(),
            ) {
                proof {
                    assert(self.pm()[i as int].0 == (user_id as int, set_id@));
                    lemma_idx_of_at(self.pm(), (user_id as int, set_id@), i as int);
                }
                return Some(i);
            }
            proof {
                assert(self.pm()[i as int].0 == (
                    self.played@[i as int].0 as int,
                    self.played@[i as int].1@,
                ));
            }
            i += 1;
        }
        proof {
            lemma_idx_of_none(self.pm(), (user_id as int, set_id@));
        }
        None
    }

    pub fn get_played(&self, user_id: i64, set_id: &String) -> (res: Option<crate::bitset::BitSet>)
        requires
            self.inv(),
        ensures
            match res {
                Some(b) => b.inv() && match self.played_of(user_id as int, set_id@) {
                    Some(p) => b.bits() == p.bits() && b.size == p.size,
                    None => false,
                },
                None => self.played_of(user_id as int, set_id@) is None,
            },
    {
        match self.find_played(user_id, set_id) {
            Some(i) => {
                proof {
                    lemma_idx_of_range(self.pm(), (user_id as int, set_id@));
                }
                let b = &self.played[i].2;
                let mut bits: Vec<bool> = Vec::new();
                let n = b.set.len();
                let mut k: usize = 0;
                while k < n
                    invariant
                        n == b.set@.len(),
                        k <= n,
                        bits@ == b.set@.subrange(0, k as int),
                    decreases n - k,
                {
                    bits.push(b.set[k]);
                    proof {
                        assert(b.set@.subrange(0, k as int).push(b.set@[k as int])
                            =~= b.set@.subrange(0, k + 1));
                    }
                    k += 1;
                }
                proof {
                    assert(bits@ =~= b.set@);
                }
                let copy = crate::bitset::BitSet { size: b.size, set: bits };
                proof {
                    assert(copy.bits() == self.played@[i as int].2.bits());
                }
                Some(copy)
            },
            None => None,
        }
    }

    /// How many topics of a package are still open to a user: none when the
    /// user blocked the package, else the unplayed ones.
    pub fn topics_in_set_remain(&self, user_id: i64, set_id: &String) -> (res: usize)
        requires
            self.inv(),
            self.set_of(set_id@) is Some,
        ensures
            res as int == spec_topics_remain(*self, user_id as int, set_id@),
    {
        if self.is_set_blocked(user_id, set_id) {
            0
        } else {
            let set = match self.find_set(set_id) {
                Some(i) => {
                    proof {
                        lemma_idx_of_range(self.sm(), set_id@);
                    }
                    i
                },
                None => {
                    proof {
                        assert(false);
                    }
                    0
                },
            };
            let total = self.sets[set].topics.len();
            let count = match self.find_played(user_id, set_id) {
                Some(i) => {
                    proof {
                        lemma_idx_of_range(self.pm(), (user_id as int, set_id@));
                        let b = self.played@[i as int].2;
                        crate::bitset::lemma_popcount_le_len(b.bits());
                    }
                    let c = self.played[i].2.size;
                    if c > total {
                        total
                    } else {
                        c
                    }
                },
                None => 0,
            };
            total - count
        }
    }
}

/// The number of topics a user may still draw from a package: zero when
/// blocked, else the topic count less the played count, clipped at zero.
pub open spec fn spec_topics_remain(d: Data, user: int, set_id: Seq<char>) -> int {
    if d.blocked_has(user, set_id) {
        0
    } else {
        let total = match d.set_of(set_id) {
            Some(t) => t.topics.len() as int,
            None => 0,
        };
        let played = match d.played_of(user, set_id) {
            Some(b) => b.size as int,
            None => 0,
        };
        if played > total {
            0
        } else {
            total - played
        }
    }
}


/// The number of topics in a known package, zero for an unknown one.
pub open spec fn spec_set_total(d: Data, set_id: Seq<char>) -> int {
    match d.set_of(set_id) {
        Some(t) => t.topics.len() as int,
        None => 0,
    }
}

/// The bits of a played bitmap after marking a set of topics.
pub open spec fn marked_bits(old_bits: Seq<bool>, topics: Seq<usize>) -> Seq<bool>
    decreases topics.len(),
{
    if topics.len() == 0 {
        old_bits
    } else {
        marked_bits(old_bits, topics.drop_last()).update(topics.last() as int, true)
    }
}

/// Whether some listed topic index equals `t`.
pub open spec fn topics_include(topics: Seq<usize>, t: int) -> bool {
    exists|w: int| 0 <= w < topics.len() && (#[trigger] topics[w]) as int == t
}

pub proof fn lemma_marked_bits(old_bits: Seq<bool>, topics: Seq<usize>)
    requires
        forall|j: int| 0 <= j < topics.len() ==> ((#[trigger] topics[j]) as int) < old_bits.len(),
    ensures
        marked_bits(old_bits, topics).len() == old_bits.len(),
        forall|t: int|
            0 <= t < old_bits.len() ==> marked_bits(old_bits, topics)[t] == (old_bits[t]
                || topics_include(topics, t)),
    decreases topics.len(),
{
    if topics.len() > 0 {
        assert forall|j: int|
            0 <= j < topics.drop_last().len() implies ((#[trigger] topics.drop_last()[j]) as int)
            < old_bits.len() by {
            assert(topics.drop_last()[j] == topics[j]);
        }
        lemma_marked_bits(old_bits, topics.drop_last());
        let m = marked_bits(old_bits, topics);
        let pre = marked_bits(old_bits, topics.drop_last());
        assert forall|t: int|
            0 <= t < old_bits.len() implies m[t] == (old_bits[t] || topics_include(topics, t)) by {
            if t == topics.last() as int {
                assert(topics[topics.len() - 1] as int == t);
                assert(topics_include(topics, t));
                assert(m[t]);
            } else {
                assert(m[t] == pre[t]);
                if topics_include(topics.drop_last(), t) {
                    let w = choose|w: int|
                        0 <= w < topics.drop_last().len() && (#[trigger] topics.drop_last()[w]) as int
                            == t;
                    assert(topics[w] as int == t);
                    assert(topics_include(topics, t));
                }
                if topics_include(topics, t) && !topics_include(topics.drop_last(), t) {
                    let w = choose|w: int|
                        0 <= w < topics.len() && (#[trigger] topics[w]) as int == t;
                    assert(w == topics.len() - 1) by {
                        if w < topics.len() - 1 {
                            assert(topics.drop_last()[w] as int == t);
                        }
                    }
                    assert(false);
                }
            }
        }
    }
}

impl Data {
    /// Marks the given topics of a package as played for every listed user;
    /// bits only accumulate, and a user without a bitmap gets a fresh one the
    /// size of the package.
    pub fn set_played(&mut self, users: &Vec<i64>, set_id: &String, topics: &Vec<usize>)
        requires
            old(self).inv(),
            old(self).set_of(set_id@) is Some,
            forall|j: int|
                0 <= j < topics@.len() ==> ((#[trigger] topics@[j]) as int) < spec_set_total(*old(self), set_id@),
            forall|a: int, b: int| 0 <= a < b < users@.len() ==> users@[a] != users@[b],
        ensures
            final(self).inv(),
            forall|t: int|
                0 <= t < users@.len() ==> spec_played_updated(
                    *old(self),
                    *final(self),
                    #[trigger] users@[t] as int,
                    set_id@,
                    topics@,
                ),
            forall|u: int, p: Seq<char>|
                !(users@.contains(u as i64) && p == set_id@) ==> final(self).played_of(u, p) == old(
                    self,
                ).played_of(u, p),
            final(self).users == old(self).users,
            final(self).sets == old(self).sets,
            final(self).active == old(self).active,
            final(self).was_active == old(self).was_active,
            final(self).ban_lists == old(self).ban_lists,
            final(self).last_played == old(self).last_played,
            final(self).blocked == old(self).blocked,
    {
        let ghost olddata = *old(self);
        let total = match self.find_set(set_id) {
            Some(i) => {
                proof {
                    lemma_idx_of_range(self.sm(), set_id@);
                }
                self.sets[i].topics.len()
            },
            None => {
                proof {
                    assert(false);
                }
                0
            },
        };
        let n = users.len();
        let mut t: usize = 0;
        while t < n
            invariant
                self.inv(),
                n == users@.len(),
                t <= n,
                forall|a: int, b: int| 0 <= a < b < n ==> users@[a] != users@[b],
                total as int == spec_set_total(olddata, set_id@),
                forall|j: int| 0 <= j < topics@.len() ==> (#[trigger] topics@[j]) < total,
                forall|q: int|
                    0 <= q < t ==> spec_played_updated(
                        olddata,
                        *self,
                        #[trigger] users@[q] as int,
                        set_id@,
                        topics@,
                    ),
                forall|q: int|
                    t <= q < n ==> self.played_of(#[trigger] users@[q] as int, set_id@)
                        == olddata.played_of(users@[q] as int, set_id@),
                forall|u: int, p: Seq<char>|
                    !(users@.contains(u as i64) && p == set_id@) ==> self.played_of(u, p)
                        == olddata.played_of(u, p),
                self.users == olddata.users,
                self.sets == olddata.sets,
                self.active == olddata.active,
                self.was_active == olddata.was_active,
                self.ban_lists == olddata.ban_lists,
                self.last_played == olddata.last_played,
                self.blocked == olddata.blocked,
                self.game_chats == olddata.game_chats,
                self.next_reset == olddata.next_reset,
            decreases n - t,
        {
            let user = users[t];
            let mut bitmap = match self.get_played(user, set_id) {
                Some(b) => b,
                None => crate::bitset::BitSet::new(total),
            };
            proof {
                if olddata.played_of(user as int, set_id@) is Some {
                    assert(self.played_of(user as int, set_id@) == olddata.played_of(
                        user as int,
                        set_id@,
                    ));
                }
            }
            bitmap.grow(total);
            proof {
                if olddata.played_of(user as int, set_id@) is None {
                    assert(bitmap.bits() =~= Seq::new(
                        spec_set_total(olddata, set_id@) as nat,
                        |i: int| false,
                    ));
                }
            }
            let ghost base_bits = bitmap.bits();
            let m = topics.len();
            let mut j: usize = 0;
            while j < m
                invariant
                    m == topics@.len(),
                    j <= m,
                    bitmap.inv(),
                    bitmap.bits().len() == base_bits.len(),
                    forall|w: int| 0 <= w < m ==> (#[trigger] topics@[w]) < base_bits.len(),
                    bitmap.bits() == marked_bits(base_bits, topics@.subrange(0, j as int)),
                decreases m - j,
            {
                proof {
                    assert(topics@.subrange(0, j as int).push(topics@[j as int]) =~= topics@.subrange(
                        0,
                        j + 1,
                    ));
                    assert(topics@.subrange(0, j + 1).drop_last() =~= topics@.subrange(0, j as int));
                    lemma_marked_bits_len(base_bits, topics@.subrange(0, j as int));
                }
                bitmap.set_bit(topics[j]);
                j += 1;
            }
            proof {
                assert(topics@.subrange(0, m as int) =~= topics@);
                lemma_marked_bits(base_bits, topics@);
            }
            self.store_played(user, set_id, bitmap);
            proof {
                assert(spec_played_updated(olddata, *self, user as int, set_id@, topics@));
            }
            t += 1;
        }
    }

    /// Replaces (or creates) one user's bitmap for one package.
    fn store_played(&mut self, user: i64, set_id: &String, bitmap: crate::bitset::BitSet)
        requires
            old(self).inv(),
            bitmap.inv(),
        ensures
            final(self).inv(),
            match final(self).played_of(user as int, set_id@) {
                Some(b) => b.bits() == bitmap.bits() && b.size == bitmap.size,
                None => false,
            },
            forall|u: int, p: Seq<char>|
                !(u == user as int && p == set_id@) ==> final(self).played_of(u, p) == old(
                    self,
                ).played_of(u, p),
            final(self).users == old(self).users,
            final(self).sets == old(self).sets,
            final(self).active == old(self).active,
            final(self).was_active == old(self).was_active,
            final(self).ban_lists == old(self).ban_lists,
            final(self).last_played == old(self).last_played,
            final(self).blocked == old(self).blocked,
            final(self).game_chats == old(self).game_chats,
            final(self).next_reset == old(self).next_reset,
    {
        let ghost oldm = self.pm();
        let ghost key = (user as int, set_id@);
        match self.find_played(user, set_id) {
            Some(i) => {
                proof {
                    lemma_idx_of_range(oldm, key);
                }
                let ghost bb = bitmap;
                self.played[i] = (user, set_id.clone(), bitmap);
                proof {
                    lemma_views_unchanged(*old(self), *self);
                    assert(self.pm() =~= oldm.update(i as int, (key, bb)));
                    assert forall|k: (int, Seq<char>)| true implies idx_of(self.pm(), k) == idx_of(
                        oldm,
                        k,
                    ) by {
                        lemma_idx_of_update(oldm, i as int, (key, bb), k);
                    }
                    assert forall|u: int, p: Seq<char>|
                        !(u == user as int && p == set_id@) implies final(self).played_of(u, p)
                        == old(self).played_of(u, p) by {
                        lemma_idx_of_range(oldm, (u, p));
                        if idx_of(oldm, (u, p)) >= 0 {
                            assert(idx_of(oldm, (u, p)) != i as int);
                            assert(self.pm()[idx_of(oldm, (u, p))] == oldm[idx_of(oldm, (u, p))]);
                        }
                    }
                    assert(unique_keys(self.pm())) by {
                        assert forall|a: int, b: int|
                            0 <= a < b < self.pm().len() implies self.pm()[a].0 != self.pm()[b].0 by {
                            assert(self.pm()[a].0 == oldm[a].0);
                            assert(self.pm()[b].0 == oldm[b].0);
                        }
                    }
                    assert forall|q: int|
                        0 <= q < self.played@.len() implies (#[trigger] self.played@[q].2).inv() by {
                        if q != i as int {
                            assert(self.played@[q] == old(self).played@[q]);
                        }
                    }
                }
            },
            None => {
                let ghost bb = bitmap;
                self.played.push((user, set_id.clone(), bitmap));
                proof {
                    lemma_views_unchanged(*old(self), *self);
                    assert(self.pm() =~= oldm.push((key, bb)));
                    lemma_idx_of_push(oldm, (key, bb), key);
                    assert forall|u: int, p: Seq<char>|
                        !(u == user as int && p == set_id@) implies final(self).played_of(u, p)
                        == old(self).played_of(u, p) by {
                        assert((u, p) != key);
                        lemma_idx_of_push(oldm, (key, bb), (u, p));
                        lemma_idx_of_range(oldm, (u, p));
                        if idx_of(oldm, (u, p)) >= 0 {
                            assert(self.pm()[idx_of(oldm, (u, p))] == oldm[idx_of(oldm, (u, p))]);
                        }
                    }
                    lemma_idx_of_range(oldm, key);
                    assert(unique_keys(self.pm())) by {
                        assert forall|a: int, b: int|
                            0 <= a < b < self.pm().len() implies self.pm()[a].0 != self.pm()[b].0 by {
                            if b < oldm.len() {
                                assert(self.pm()[a] == oldm[a]);
                                assert(self.pm()[b] == oldm[b]);
                            } else {
                                assert(self.pm()[b].0 == key);
                                assert(self.pm()[a] == oldm[a]);
                            }
                        }
                    }
                    assert forall|q: int|
                        0 <= q < self.played@.len() implies (#[trigger] self.played@[q].2).inv() by {
                        if q < old(self).played@.len() {
                            assert(self.played@[q] == old(self).played@[q]);
                        }
                    }
                }
            },
        }
    }
}

proof fn lemma_marked_bits_len(old_bits: Seq<bool>, topics: Seq<usize>)
    requires
        forall|j: int| 0 <= j < topics.len() ==> (#[trigger] topics[j]) < old_bits.len(),
    ensures
        marked_bits(old_bits, topics).len() == old_bits.len(),
    decreases topics.len(),
{
    if topics.len() > 0 {
        assert forall|j: int|
            0 <= j < topics.drop_last().len() implies (#[trigger] topics.drop_last()[j])
            < old_bits.len() by {
            assert(topics.drop_last()[j] == topics[j]);
        }
        lemma_marked_bits_len(old_bits, topics.drop_last());
    }
}

/// What one user's bitmap looks like after a marking pass: the old bits with
/// the selected topics set, over a fresh all-false bitmap when none existed.
pub open spec fn spec_played_updated(
    before: Data,
    after: Data,
    user: int,
    set_id: Seq<char>,
    topics: Seq<usize>,
) -> bool {
    let total = spec_set_total(before, set_id);
    let base = match before.played_of(user, set_id) {
        Some(b) => crate::bitset::padded(b.bits(), total),
        None => Seq::new(total as nat, |i: int| false),
    };
    match after.played_of(user, set_id) {
        Some(b) => b.bits() == marked_bits(base, topics) && b.inv(),
        None => false,
    }
}

/// The ratings of the listed players as the store holds them.
pub open spec fn ratings_of(d: Data, players: Seq<(i64, i64)>) -> Seq<int> {
    Seq::new(
        players.len(),
        |i: int| match d.user_of(players[i].0 as int) {
            Some(u) => u.rating,
            None => 0,
        },
    )
}

/// The scores of the listed players.
pub open spec fn scores_of(players: Seq<(i64, i64)>) -> Seq<int> {
    Seq::new(players.len(), |i: int| players[i].1 as int)
}

/// A settled rating: the raw sum of pair deltas, clamped below so the rating
/// stays at least 10 and above at the machine bound.
pub open spec fn settled_rating(ratings: Seq<int>, scores: Seq<int>, i: int) -> int {
    let v = ratings[i] + crate::rating::clamped_delta(ratings, scores, i);
    if v > u32::MAX as int {
        u32::MAX as int
    } else {
        v
    }
}

impl Data {
    /// Applies the periodic decay to every stored rating.
    pub fn rating_discount(&mut self)
        requires
            old(self).inv(),
        ensures
            final(self).inv(),
            final(self).users@.len() == old(self).users@.len(),
            forall|i: int|
                0 <= i < old(self).users@.len() ==> (#[trigger] final(self).users@[i]).0 == old(
                    self,
                ).users@[i].0 && final(self).users@[i].1@.display_name == old(
                    self,
                ).users@[i].1@.display_name && final(self).users@[i].1@.rating
                    == crate::rating::decayed(old(self).users@[i].1@.rating),
            final(self).sets == old(self).sets,
            final(self).active == old(self).active,
            final(self).was_active == old(self).was_active,
            final(self).played == old(self).played,
            final(self).blocked == old(self).blocked,
            final(self).ban_lists == old(self).ban_lists,
            final(self).last_played == old(self).last_played,
            final(self).game_chats == old(self).game_chats,
            final(self).next_reset == old(self).next_reset,
    {
        let n = self.users.len();
        let mut updated: Vec<(i64, UserData)> = Vec::new();
        let mut i: usize = 0;
        while i < n
            invariant
                n == self.users@.len(),
                i <= n,
                updated@.len() == i,
                forall|j: int|
                    0 <= j < i ==> (#[trigger] updated@[j]).0 == self.users@[j].0
                        && updated@[j].1@.display_name == self.users@[j].1@.display_name
                        && updated@[j].1@.rating == crate::rating::decayed(
                        self.users@[j].1@.rating,
                    ),
            decreases n - i,
        {
            let id = self.users[i].0;
            let name = self.users[i].1.display_name.clone();
            let rating = crate::rating::decay_rating(self.users[i].1.rating);
            updated.push((id, UserData { display_name: name, rating }));
            i += 1;
        }
        let ghost oldd = *self;
        self.users = updated;
        proof {
            lemma_views_unchanged(oldd, *self);
            assert(unique_keys(self.um())) by {
                assert forall|a: int, b: int|
                    0 <= a < b < self.um().len() implies self.um()[a].0 != self.um()[b].0 by {
                    assert(self.um()[a].0 == oldd.um()[a].0);
                    assert(self.um()[b].0 == oldd.um()[b].0);
                }
            }
        }
    }

    /// The transactional rating commit at the end of a game: every player's
    /// rating moves by the clamped sum of pair deltas against the whole field,
    /// computed from the ratings the store held before the commit.
    pub fn save_game_results(&mut self, players: &Vec<(i64, i64)>)
        requires
            old(self).inv(),
            forall|a: int, b: int| 0 <= a < b < players@.len() ==> players@[a].0 != players@[b].0,
            forall|i: int|
                0 <= i < players@.len() ==> old(self).user_of(#[trigger] players@[i].0 as int) is Some,
        ensures
            final(self).inv(),
            forall|i: int|
                0 <= i < players@.len() ==> match final(self).user_of(
                    #[trigger] players@[i].0 as int,
                ) {
                    Some(u) => u.rating == settled_rating(ratings_of(*old(self), players@), scores_of(players@), i)
                        && u.display_name == match old(self).user_of(players@[i].0 as int) {
                        Some(ou) => ou.display_name,
                        None => u.display_name,
                    },
                    None => false,
                },
            forall|k: int|
                (forall|j: int| 0 <= j < players@.len() ==> (#[trigger] players@[j]).0 as int != k)
                    ==> final(self).user_of(k) == old(self).user_of(k),
            final(self).sets == old(self).sets,
            final(self).active == old(self).active,
            final(self).was_active == old(self).was_active,
            final(self).played == old(self).played,
            final(self).blocked == old(self).blocked,
            final(self).ban_lists == old(self).ban_lists,
            final(self).last_played == old(self).last_played,
            final(self).game_chats == old(self).game_chats,
            final(self).next_reset == old(self).next_reset,
            final(self).game_states == old(self).game_states,
    {
        let ghost olddata = *old(self);
        let ghost ratings = ratings_of(*old(self), players@);
        let ghost scores = scores_of(players@);
        let n = players.len();
        // read all ratings first: the deltas are computed against the
        // pre-commit state
        let mut current: Vec<u32> = Vec::new();
        let mut names: Vec<String> = Vec::new();
        let mut i: usize = 0;
        while i < n
            invariant
                self == old(self),
                self.inv(),
                n == players@.len(),
                i <= n,
                current@.len() == i,
                names@.len() == i,
                forall|j: int|
                    0 <= j < players@.len() ==> old(self).user_of(
                        #[trigger] players@[j].0 as int,
                    ) is Some,
                forall|j: int|
                    0 <= j < i ==> (#[trigger] current@[j]) as int == ratings_of(
                        *old(self),
                        players@,
                    )[j],
                forall|j: int|
                    0 <= j < i ==> (#[trigger] names@[j])@ == match old(self).user_of(
                        players@[j].0 as int,
                    ) {
                        Some(u) => u.display_name,
                        None => Seq::<char>::empty(),
                    },
            decreases n - i,
        {
            match self.get_user_data(&players[i].0) {
                Some(u) => {
                    current.push(u.rating);
                    names.push(u.display_name);
                },
                None => {
                    proof {
                        assert(false);
                    }
                },
            }
            i += 1;
        }
        // compute and apply each delta
        let mut i: usize = 0;
        while i < n
            invariant
                self.inv(),
                n == players@.len(),
                i <= n,
                current@.len() == n,
                names@.len() == n,
                ratings == ratings_of(olddata, players@),
                scores == scores_of(players@),
                forall|a: int, b: int|
                    0 <= a < b < players@.len() ==> players@[a].0 != players@[b].0,
                forall|j: int| 0 <= j < n ==> (#[trigger] current@[j]) as int == ratings[j],
                forall|j: int|
                    0 <= j < n ==> (#[trigger] names@[j])@ == match olddata.user_of(
                        players@[j].0 as int,
                    ) {
                        Some(u) => u.display_name,
                        None => Seq::<char>::empty(),
                    },
                forall|j: int|
                    0 <= j < i ==> match self.user_of(#[trigger] players@[j].0 as int) {
                        Some(u) => u.rating == settled_rating(ratings, scores, j)
                            && u.display_name == names@[j]@,
                        None => false,
                    },
                forall|k: int|
                    (forall|j: int| 0 <= j < i ==> (#[trigger] players@[j]).0 as int != k)
                        ==> self.user_of(k) == olddata.user_of(k),
                self.sets == olddata.sets,
                self.active == olddata.active,
                self.was_active == olddata.was_active,
                self.played == olddata.played,
                self.blocked == olddata.blocked,
                self.ban_lists == olddata.ban_lists,
                self.last_played == olddata.last_played,
                self.game_chats == olddata.game_chats,
                self.next_reset == olddata.next_reset,
                self.game_states == olddata.game_states,
            decreases n - i,
        {
            let mut delta: i128 = 0;
            let mut j: usize = 0;
            while j < n
                invariant
                    n == players@.len(),
                    i < n,
                    j <= n,
                    current@.len() == n,
                    forall|w: int| 0 <= w < n ==> (#[trigger] current@[w]) as int == ratings[w],
                    scores == scores_of(players@),
                    delta == crate::rating::raw_delta_upto(ratings, scores, i as int, j as int),
                    -100 * (j as int) <= delta <= 100 * (j as int),
                decreases n - j,
            {
                if j != i {
                    let d = crate::rating::pair_delta_exec(
                        current[i],
                        current[j],
                        players[i].1,
                        players[j].1,
                    );
                    delta = delta + (d as i128);
                } else {
                }
                j += 1;
            }
            let ra = current[i];
            let floor: i128 = 10 - (ra as i128);
            let clamped: i128 = if delta >= floor {
                delta
            } else {
                floor
            };
            let vnew: i128 = (ra as i128) + clamped;
            let newr: u32 = if vnew > u32::MAX as i128 {
                u32::MAX
            } else {
                vnew as u32
            };
            proof {
                assert(newr as int == settled_rating(ratings, scores, i as int));
            }
            let nm = names[i].clone();
            let ud = UserData { display_name: nm, rating: newr };
            let ghost preself = *self;
            self.set_user_data(players[i].0, &ud);
            proof {
                assert forall|j: int|
                    0 <= j < i + 1 implies match self.user_of(#[trigger] players@[j].0 as int) {
                    Some(u) => u.rating == settled_rating(ratings, scores, j) && u.display_name
                        == names@[j]@,
                    None => false,
                } by {
                    if j < i {
                        assert(players@[j].0 != players@[i as int].0);
                        assert(self.user_of(players@[j].0 as int) == preself.user_of(
                            players@[j].0 as int,
                        ));
                    }
                }
            }
            i += 1;
        }
        proof {
            assert forall|j: int|
                0 <= j < players@.len() implies match final(self).user_of(
                #[trigger] players@[j].0 as int,
            ) {
                Some(u) => u.rating == settled_rating(ratings, scores, j) && u.display_name
                    == match olddata.user_of(players@[j].0 as int) {
                    Some(ou) => ou.display_name,
                    None => u.display_name,
                },
                None => false,
            } by {
                assert(olddata.user_of(players@[j].0 as int) is Some);
            }
        }
    }
}

impl Data {
    fn find_game(&self, chat: i64) -> (res: Option<usize>)
        ensures
            match res {
                Some(i) => i < self.game_states@.len() && idx_of(self.gm(), chat) == i,
                None => !has_key(self.gm(), chat),
            },
    {
        let n = self.game_states.len();
        let mut i: usize = 0;
        while i < n
            invariant
                n == self.game_states@.len(),
                i <= n,
                forall|j: int| 0 <= j < i ==> self.gm()[j].0 != chat,
            decreases n - i,
        {
            if self.game_states[i].0 == chat {
                proof {
                    assert(self.gm()[i as int].0 == chat);
                    lemma_idx_of_at(self.gm(), chat, i as int);
                }
                return Some(i);
            }
            proof {
                assert(self.gm()[i as int].0 == self.game_states@[i as int].0);
            }
            i += 1;
        }
        proof {
            lemma_idx_of_none(self.gm(), chat);
        }
        None
    }

    /// Persists a snapshot; at most one snapshot exists per play chat, so a
    /// snapshot for the same chat is replaced.
    pub fn save_game_state(&mut self, game: &crate::game::Game)
        requires
            old(self).inv(),
        ensures
            final(self).inv(),
            final(self).game_of(game.chat_id) == Some(game@),
            forall|k: i64| k != game.chat_id ==> final(self).game_of(k) == old(self).game_of(k),
            final(self).users == old(self).users,
            final(self).sets == old(self).sets,
            final(self).active == old(self).active,
            final(self).was_active == old(self).was_active,
            final(self).played == old(self).played,
            final(self).blocked == old(self).blocked,
            final(self).ban_lists == old(self).ban_lists,
            final(self).last_played == old(self).last_played,
            final(self).game_chats == old(self).game_chats,
            final(self).next_reset == old(self).next_reset,
    {
        let ghost oldm = self.gm();
        let copy = crate::game::clone_game(game);
        let chat = game.chat_id;
        match self.find_game(chat) {
            Some(i) => {
                self.game_states[i] = (chat, copy);
                proof {
                    lemma_views_unchanged(*old(self), *self);
                    lemma_idx_of_range(oldm, chat);
                    assert(self.gm() =~= oldm.update(i as int, (chat, game@)));
                    assert forall|k: i64| true implies idx_of(self.gm(), k) == idx_of(oldm, k) by {
                        lemma_idx_of_update(oldm, i as int, (chat, game@), k);
                    }
                    assert forall|k: i64|
                        k != chat implies final(self).game_of(k) == old(self).game_of(k) by {
                        lemma_idx_of_range(oldm, k);
                        if idx_of(oldm, k) >= 0 {
                            assert(idx_of(oldm, k) != i as int);
                            assert(self.gm()[idx_of(oldm, k)] == oldm[idx_of(oldm, k)]);
                        }
                    }
                    assert(unique_keys(self.gm())) by {
                        assert forall|a: int, b: int|
                            0 <= a < b < self.gm().len() implies self.gm()[a].0 != self.gm()[b].0 by {
                            assert(self.gm()[a].0 == oldm[a].0);
                            assert(self.gm()[b].0 == oldm[b].0);
                        }
                    }
                    assert forall|q: int|
                        0 <= q < self.gm().len() implies (#[trigger] self.gm()[q]).0
                        == self.gm()[q].1.chat_id by {
                        if q != i as int {
                            assert(self.gm()[q] == oldm[q]);
                        }
                    }
                }
            },
            None => {
                self.game_states.push((chat, copy));
                proof {
                    lemma_views_unchanged(*old(self), *self);
                    assert(self.gm() =~= oldm.push((chat, game@)));
                    lemma_idx_of_push(oldm, (chat, game@), chat);
                    assert forall|k: i64|
                        k != chat implies final(self).game_of(k) == old(self).game_of(k) by {
                        lemma_idx_of_push(oldm, (chat, game@), k);
                        lemma_idx_of_range(oldm, k);
                        if idx_of(oldm, k) >= 0 {
                            assert(self.gm()[idx_of(oldm, k)] == oldm[idx_of(oldm, k)]);
                        }
                    }
                    lemma_idx_of_range(oldm, chat);
                    assert(unique_keys(self.gm())) by {
                        assert forall|a: int, b: int|
                            0 <= a < b < self.gm().len() implies self.gm()[a].0 != self.gm()[b].0 by {
                            if b < oldm.len() {
                                assert(self.gm()[a] == oldm[a]);
                                assert(self.gm()[b] == oldm[b]);
                            } else {
                                assert(self.gm()[b].0 == chat);
                                assert(self.gm()[a] == oldm[a]);
                            }
                        }
                    }
                    assert forall|q: int|
                        0 <= q < self.gm().len() implies (#[trigger] self.gm()[q]).0
                        == self.gm()[q].1.chat_id by {
                        if q < oldm.len() {
                            assert(self.gm()[q] == oldm[q]);
                        }
                    }
                }
            },
        }
    }

    /// Every persisted snapshot, for the recovery scan at boot.
    pub fn get_game_states(&self) -> (res: Vec<crate::game::Game>)
        ensures
            res@.len() == self.gm().len(),
            forall|i: int| 0 <= i < res@.len() ==> (#[trigger] res@[i])@ == self.gm()[i].1,
    {
        let n = self.game_states.len();
        let mut r: Vec<crate::game::Game> = Vec::new();
        let mut i: usize = 0;
        while i < n
            invariant
                n == self.game_states@.len(),
                i <= n,
                r@.len() == i,
                forall|j: int| 0 <= j < i ==> (#[trigger] r@[j])@ == self.gm()[j].1,
            decreases n - i,
        {
            r.push(crate::game::clone_game(&self.game_states[i].1));
            i += 1;
        }
        r
    }

    /// Deletes the snapshot of a finished game.
    pub fn remove_game(&mut self, id: i64)
        requires
            old(self).inv(),
        ensures
            final(self).inv(),
            final(self).game_of(id) is None,
            forall|k: i64| k != id ==> final(self).game_of(k) == old(self).game_of(k),
            final(self).users == old(self).users,
            final(self).sets == old(self).sets,
            final(self).active == old(self).active,
            final(self).was_active == old(self).was_active,
            final(self).played == old(self).played,
            final(self).blocked == old(self).blocked,
            final(self).ban_lists == old(self).ban_lists,
            final(self).last_played == old(self).last_played,
            final(self).game_chats == old(self).game_chats,
            final(self).next_reset == old(self).next_reset,
    {
        let ghost oldm = self.gm();
        match self.find_game(id) {
            None => {
                proof {
                    lemma_views_unchanged(*old(self), *self);
                }
            },
            Some(i) => {
                self.game_states.remove(i);
                proof {
                    lemma_views_unchanged(*old(self), *self);
                    lemma_idx_of_range(oldm, id);
                    assert(self.gm() =~= oldm.remove(i as int));
                    assert forall|q: int|
                        0 <= q < self.gm().len() implies self.gm()[q] == (if q < i as int {
                        oldm[q]
                    } else {
                        oldm[q + 1]
                    }) by {}
                    assert(unique_keys(self.gm())) by {
                        assert forall|a: int, b: int|
                            0 <= a < b < self.gm().len() implies self.gm()[a].0 != self.gm()[b].0 by {}
                    }
                    assert forall|q: int|
                        0 <= q < self.gm().len() implies (#[trigger] self.gm()[q]).0
                        == self.gm()[q].1.chat_id by {}
                    assert(!has_key(self.gm(), id)) by {
                        assert forall|q: int| 0 <= q < self.gm().len() implies self.gm()[q].0 != id by {
                            if q < i as int {
                                assert(self.gm()[q] == oldm[q]);
                            } else {
                                assert(self.gm()[q] == oldm[q + 1]);
                            }
                        }
                        lemma_idx_of_none(self.gm(), id);
                    }
                    assert forall|k: i64|
                        k != id implies final(self).game_of(k) == old(self).game_of(k) by {
                        lemma_idx_of_range(oldm, k);
                        lemma_idx_of_range(self.gm(), k);
                        if idx_of(oldm, k) >= 0 {
                            let w = idx_of(oldm, k);
                            if w < i as int {
                                assert(self.gm()[w] == oldm[w]);
                                assert forall|j: int| 0 <= j < w implies self.gm()[j].0 != k by {
                                    assert(self.gm()[j] == oldm[j]);
                                }
                                lemma_idx_of_at(self.gm(), k, w);
                            } else {
                                assert(w != i as int);
                                assert(self.gm()[w - 1] == oldm[w]);
                                assert forall|j: int| 0 <= j < w - 1 implies self.gm()[j].0 != k by {
                                    if j < i as int {
                                        assert(self.gm()[j] == oldm[j]);
                                    } else {
                                        assert(self.gm()[j] == oldm[j + 1]);
                                        assert(j + 1 < w);
                                    }
                                }
                                lemma_idx_of_at(self.gm(), k, w - 1);
                            }
                        } else {
                            assert forall|j: int| 0 <= j < self.gm().len() implies self.gm()[j].0 != k by {
                                if j < i as int {
                                    assert(self.gm()[j] == oldm[j]);
                                } else {
                                    assert(self.gm()[j] == oldm[j + 1]);
                                }
                            }
                            lemma_idx_of_none(self.gm(), k);
                        }
                    }
                }
            },
        }
    }
}

impl Data {
    /// Every stored profile, ordered by rating, highest first.
    fn users_by_rating(&self) -> (r: Vec<UserData>)
        ensures
            r@.len() == self.users@.len(),
            forall|a: int, b: int|
                0 <= a < b < r@.len() ==> (#[trigger] r@[a]).rating >= (#[trigger] r@[b]).rating,
            r.deep_view().to_multiset() == user_views(*self).to_multiset(),
    {
        let n = self.users.len();
        let mut r: Vec<UserData> = Vec::new();
        let mut i: usize = 0;
        proof {
            broadcast use vstd::seq_lib::group_to_multiset_ensures;
            assert(r.deep_view() =~= Seq::<UserDataView>::empty());
            assert(user_views(*self).take(0) =~= Seq::<UserDataView>::empty());
            assert(r.deep_view().to_multiset() =~= user_views(*self).take(0).to_multiset());
        }
        while i < n
            invariant
                n == self.users@.len(),
                i <= n,
                r@.len() == i,
                forall|a: int, b: int|
                    0 <= a < b < r@.len() ==> (#[trigger] r@[a]).rating >= (
                    #[trigger] r@[b]).rating,
                r.deep_view().to_multiset() == user_views(*self).take(i as int).to_multiset(),
            decreases n - i,
        {
            let u = self.users[i].1.clone();
            let ghost predeep = r.deep_view();
            proof {
                assert(predeep.to_multiset() == user_views(*self).take(i as int).to_multiset());
            }
            let m = r.len();
            let mut at: usize = 0;
            while at < m && r[at].rating >= u.rating
                invariant
                    m == r@.len(),
                    at <= m,
                    forall|w: int| 0 <= w < at ==> (#[trigger] r@[w]).rating >= u.rating,
                decreases m - at,
            {
                at += 1;
            }
            let ghost pre = r@;
            proof {
                assert(predeep == r.deep_view());
            }
            r.insert(at, u);
            proof {
                assert(u@ == self.users@[i as int].1@);
                assert(r.deep_view() =~= predeep.insert(at as int, u@));
                lemma_to_multiset_insert(predeep, at as int, u@);
                broadcast use vstd::seq_lib::group_to_multiset_ensures;
                assert(predeep.to_multiset() == user_views(*self).take(i as int).to_multiset());
                assert(r.deep_view().to_multiset() == predeep.insert(at as int, u@).to_multiset());
                assert(r.deep_view().to_multiset() == user_views(*self).take(
                    i as int,
                ).to_multiset().insert(u@));
                assert(user_views(*self).take(i + 1) =~= user_views(*self).take(i as int).push(
                    self.users@[i as int].1@,
                ));
                assert(user_views(*self).take(i + 1).to_multiset() == user_views(*self).take(
                    i as int,
                ).push(self.users@[i as int].1@).to_multiset());
                assert(user_views(*self).take(i as int).push(self.users@[i as int].1@).to_multiset()
                    =~= user_views(*self).take(i as int).to_multiset().insert(
                    self.users@[i as int].1@,
                ));
                assert(r.deep_view().to_multiset() =~= user_views(*self).take(i + 1).to_multiset());
                assert forall|a: int, b: int|
                    0 <= a < b < r@.len() implies (#[trigger] r@[a]).rating >= (
                #[trigger] r@[b]).rating by {
                    let oa: int = if a < at as int {
                        a
                    } else {
                        a - 1
                    };
                    let ob: int = if b < at as int {
                        b
                    } else {
                        b - 1
                    };
                    if a == at as int {
                        assert(r@[b] == pre[ob]);
                        if ob >= at as int {
                            assert(r@[a].rating >= r@[b].rating) by {
                                if pre[ob].rating > u.rating {
                                    assert((at as int) < pre.len());
                                }
                            }
                        }
                    } else if b == at as int {
                        assert(r@[a] == pre[oa]);
                        assert(oa < at as int);
                        assert(pre[oa].rating >= u.rating);
                    } else {
                        assert(r@[a] == pre[oa]);
                        assert(r@[b] == pre[ob]);
                        if oa < at as int && ob >= at as int {
                            if (at as int) < pre.len() {
                                assert(pre[oa].rating >= u.rating);
                            }
                        }
                    }
                }
            }
            i += 1;
        }
        proof {
            assert(user_views(*self).take(n as int) =~= user_views(*self));
            assert(user_views(*self).take(n as int).to_multiset() == user_views(
                *self,
            ).to_multiset());
        }
        r
    }

    /// The rating table: all users by rating descending, dense places with
    /// ties sharing one place, cut once the place passes `top`.
    pub fn get_rating_list(&self, top: usize) -> (r: String)
        ensures
            exists|s: Seq<UserDataView>|
                (forall|a: int, b: int|
                    0 <= a < b < s.len() ==> (#[trigger] s[a]).rating >= (#[trigger] s[b]).rating)
                    && (#[trigger] s.to_multiset()) == user_views(*self).to_multiset() && r@
                    == spec_rating_list(s, top as int),
    {
        let users = self.users_by_rating();
        let ghost sv = users.deep_view();
        proof {
            assert forall|a: int, b: int|
                0 <= a < b < sv.len() implies (#[trigger] sv[a]).rating >= (
            #[trigger] sv[b]).rating by {
                assert(sv[a] == users@[a]@);
                assert(sv[b] == users@[b]@);
            }
        }
        let mut res = String::new();
        let mut place: usize = 0;
        let mut last_rating: u32 = 0;
        let n = users.len();
        let mut i: usize = 0;
        while i < n
            invariant
                n == users@.len(),
                sv == users.deep_view(),
                sv.len() == n,
                i <= n,
                place <= i,
                forall|a: int, b: int|
                    0 <= a < b < n ==> (#[trigger] sv[a]).rating >= (#[trigger] sv[b]).rating,
                sv.to_multiset() == user_views(*self).to_multiset(),
                spec_rating_list(sv, top as int) == res@ + spec_rating_table(
                    sv,
                    i as int,
                    place as int,
                    last_rating as int,
                    top as int,
                ),
            decreases n - i,
        {
            let u_rating = users[i].rating;
            proof {
                assert(sv[i as int] == users@[i as int]@);
            }
            let change = i == 0 || u_rating != last_rating;
            let np = if change {
                place + 1
            } else {
                place
            };
            if change && np > top {
                proof {
                    assert(spec_rating_table(
                        sv,
                        i as int,
                        place as int,
                        last_rating as int,
                        top as int,
                    ) =~= Seq::<char>::empty());
                    assert(spec_rating_list(sv, top as int) =~= res@);
                    assert((forall|a: int, b: int|
                        0 <= a < b < sv.len() ==> (#[trigger] sv[a]).rating >= (
                        #[trigger] sv[b]).rating) && sv.to_multiset() == user_views(
                        *self,
                    ).to_multiset() && res@ == spec_rating_list(sv, top as int));
                }
                return res;
            }
            res.append("<b>");
            let p = crate::text::usize_string(np);
            res.append(p.as_str());
            res.append(".</b> ");
            let nm = users[i].display_name();
            res.append(nm.as_str());
            res.append(" ");
            let shown = crate::display_rating(u_rating);
            let sr = crate::text::u64_string(shown as u64);
            res.append(sr.as_str());
            res.append("\n");
            place = np;
            last_rating = u_rating;
            i += 1;
        }
        proof {
            assert(spec_rating_table(sv, n as int, place as int, last_rating as int, top as int)
                =~= Seq::<char>::empty());
            assert(spec_rating_list(sv, top as int) =~= res@);
            assert((forall|a: int, b: int|
                0 <= a < b < sv.len() ==> (#[trigger] sv[a]).rating >= (#[trigger] sv[b]).rating)
                && sv.to_multiset() == user_views(*self).to_multiset() && res@ == spec_rating_list(
                sv,
                top as int,
            ));
        }
        res
    }
}

/// The profiles as the store holds them, in storage order.
pub open spec fn user_views(d: Data) -> Seq<UserDataView> {
    Seq::new(d.users@.len(), |i: int| d.users@[i].1@)
}

/// One rendered row of the rating table.
pub open spec fn spec_rating_row(place: int, u: UserDataView) -> Seq<char> {
    ("<b>")@ + crate::text::dec_str(place) + (".</b> ")@ + html_escaped(u.display_name) + (" ")@
        + crate::text::dec_str((u.rating + 5) / 10) + ("\n")@
}

/// The table from position `i` on: a new rating opens the next dense place,
/// and rendering stops once that place passes `top`.
pub open spec fn spec_rating_table(
    s: Seq<UserDataView>,
    i: int,
    place: int,
    last: int,
    top: int,
) -> Seq<char>
    decreases s.len() - i,
{
    if i < 0 || i >= s.len() {
        Seq::empty()
    } else {
        let change = i == 0 || s[i].rating != last;
        let np = if change {
            place + 1
        } else {
            place
        };
        if change && np > top {
            Seq::empty()
        } else {
            spec_rating_row(np, s[i]) + spec_rating_table(s, i + 1, np, s[i].rating, top)
        }
    }
}

pub open spec fn spec_rating_list(s: Seq<UserDataView>, top: int) -> Seq<char> {
    spec_rating_table(s, 0, 0, 0, top)
}

/// Inserting anywhere adds exactly that element to the multiset.
proof fn lemma_to_multiset_insert(s: Seq<UserDataView>, i: int, x: UserDataView)
    requires
        0 <= i <= s.len(),
    ensures
        s.insert(i, x).to_multiset() == s.to_multiset().insert(x),
{
    broadcast use vstd::seq_lib::group_to_multiset_ensures;
    let t = s.insert(i, x);
    assert(t[i] == x);
    assert(t.remove(i) =~= s);
    assert(t.remove(i).to_multiset() =~= t.to_multiset().remove(t[i]));
    assert(t.to_multiset().contains(x)) by {
        assert(t.contains(x));
    }
    assert(t.to_multiset().remove(x).insert(x) =~= t.to_multiset());
}

/// Every package in the active rotation has been active at some point: the
/// active listing never shows an id the was-active history lacks.
pub proof fn lemma_active_subset_of_was_active(d: Data)
    requires
        d.inv(),
    ensures
        forall|i: int| 0 <= i < d.av().len() ==> d.wv().contains(#[trigger] d.av()[i]),
{
}

/// At most one snapshot is bound to any play chat.
pub proof fn lemma_snapshots_unique(d: Data)
    requires
        d.inv(),
    ensures
        forall|i: int, j: int|
            0 <= i < j < d.gm().len() ==> (#[trigger] d.gm()[i]).1.chat_id != (
            #[trigger] d.gm()[j]).1.chat_id,
{
    assert forall|i: int, j: int|
        0 <= i < j < d.gm().len() implies (#[trigger] d.gm()[i]).1.chat_id != (
    #[trigger] d.gm()[j]).1.chat_id by {
        assert(d.gm()[i].0 == d.gm()[i].1.chat_id);
        assert(d.gm()[j].0 == d.gm()[j].1.chat_id);
    }
}

/// Ban lists hold at most fifty distinct entries and recent-opponents lists
/// at most ten, at all times.
pub proof fn lemma_bounded_lists(d: Data, user: int)
    requires
        d.inv(),
    ensures
        d.ban_list_of(user).len() <= 50,
        forall|i: int, j: int|
            0 <= i < j < d.ban_list_of(user).len() ==> d.ban_list_of(user)[i] != d.ban_list_of(
                user,
            )[j],
        d.recent_of(user).len() <= 10,
        forall|i: int, j: int|
            0 <= i < j < d.recent_of(user).len() ==> d.recent_of(user)[i] != d.recent_of(user)[j],
{
    lemma_idx_of_range(d.bl(), user);
    lemma_idx_of_range(d.lp(), user);
}

/// What the ban command did with the given list index.
pub enum BanByIndexResult {
    BadNumber,
    Banned(i64),
    AlreadyInList(i64),
    SizeLimitReached,
}

impl Data {
    /// Bans the player picked by a one-based index into the recent-opponents
    /// list, counted from the most recent opponent backward.
    pub fn ban_by_index(&mut self, user: i64, number: usize) -> (res: BanByIndexResult)
        requires
            old(self).inv(),
        ensures
            final(self).inv(),
            (res is BadNumber) == (number < 1 || number as int > old(self).recent_of(
                user as int,
            ).len()),
            res is BadNumber ==> *final(self) == *old(self),
            (match res {
                BanByIndexResult::Banned(other) => {
                    &&& other == old(self).recent_of(user as int)[old(self).recent_of(
                        user as int,
                    ).len() - number]
                    &&& final(self).ban_list_of(user as int) == old(self).ban_list_of(
                        user as int,
                    ).push(other)
                },
                _ => true,
            }),
            (match res {
                BanByIndexResult::AlreadyInList(other) => old(self).ban_list_of(
                    user as int,
                ).contains(other),
                _ => true,
            }),
            !(res is Banned) ==> final(self).ban_list_of(user as int) == old(self).ban_list_of(
                user as int,
            ),
            forall|k: int| k != user as int ==> final(self).ban_list_of(k) == old(self).ban_list_of(k),
            res is SizeLimitReached ==> old(self).ban_list_of(user as int).len() >= 50,
            final(self).users == old(self).users,
            final(self).last_played == old(self).last_played,
    {
        let played_with = self.get_last_played(user);
        if number < 1 || number > played_with.len() {
            proof {
                lemma_views_unchanged(*old(self), *self);
            }
            return BanByIndexResult::BadNumber;
        }
        let to_ban = played_with[played_with.len() - number];
        match self.add_to_ban_list(user, to_ban) {
            UserBanResult::Banned => BanByIndexResult::Banned(to_ban),
            UserBanResult::AlreadyInList => BanByIndexResult::AlreadyInList(to_ban),
            UserBanResult::SizeLimitReached => BanByIndexResult::SizeLimitReached,
        }
    }

    /// Lifts the ban picked by a one-based index into the ban list.
    pub fn unban_by_index(&mut self, user: i64, number: usize) -> (res: Option<i64>)
        requires
            old(self).inv(),
        ensures
            final(self).inv(),
            (res is None) == (number < 1 || number as int > old(self).ban_list_of(
                user as int,
            ).len()),
            res is None ==> *final(self) == *old(self),
            (match res {
                Some(other) => {
                    &&& other == old(self).ban_list_of(user as int)[number - 1]
                    &&& !final(self).ban_list_of(user as int).contains(other)
                },
                None => true,
            }),
            final(self).users == old(self).users,
            final(self).last_played == old(self).last_played,
    {
        let banned = self.get_ban_list(user);
        if number < 1 || number > banned.len() {
            proof {
                lemma_views_unchanged(*old(self), *self);
            }
            return None;
        }
        let target = banned[number - 1];
        proof {
            assert(old(self).ban_list_of(user as int)[number - 1] == target);
            assert(old(self).ban_list_of(user as int).contains(target));
        }
        self.remove_from_ban_list(user, target);
        Some(target)
    }
}
} // verus!
