use vstd::prelude::*;
use crate::text::same_str;
use crate::sources::{strs, contains_str};

verus! {

/// Each key at most once.
pub open spec fn keys_unique(s: Seq<(String, String)>) -> bool {
    forall|i: int, j: int| 0 <= i < j < s.len() ==> (#[trigger] s[i]).0@ != (#[trigger] s[j]).0@
}

/// The map that a list of (directory, workspace) pairs with distinct directories stands for.
pub open spec fn pairs_map(s: Seq<(String, String)>) -> Map<Seq<char>, Seq<char>> {
    Map::new(
        |k: Seq<char>| exists|i: int| 0 <= i < s.len() && (#[trigger] s[i]).0@ == k,
        |k: Seq<char>| s[choose|i: int| 0 <= i < s.len() && (#[trigger] s[i]).0@ == k].1@,
    )
}

/// The map that a list of pairs builds when each pair is inserted in turn, later pairs
/// overriding earlier ones.
pub open spec fn pairs_fold(s: Seq<(String, String)>) -> Map<Seq<char>, Seq<char>>
    decreases s.len(),
{
    if s.len() == 0 {
        Map::empty()
    } else {
        pairs_fold(s.drop_last()).insert(s.last().0@, s.last().1@)
    }
}

pub proof fn lemma_pairs_lookup(s: Seq<(String, String)>, i: int)
    requires
        keys_unique(s),
        0 <= i < s.len(),
    ensures
        pairs_map(s).contains_key(s[i].0@),
        pairs_map(s)[s[i].0@] == s[i].1@,
{
    let k = s[i].0@;
    assert(exists|j: int| 0 <= j < s.len() && (#[trigger] s[j]).0@ == k);
    let c = choose|j: int| 0 <= j < s.len() && (#[trigger] s[j]).0@ == k;
    if c != i {
        if c < i {
            assert(s[c].0@ != s[i].0@);
        } else {
            assert(s[i].0@ != s[c].0@);
        }
    }
}

pub proof fn lemma_pairs_absent(s: Seq<(String, String)>, k: Seq<char>)
    requires
        forall|i: int| 0 <= i < s.len() ==> (#[trigger] s[i]).0@ != k,
    ensures
        !pairs_map(s).contains_key(k),
{
}

/// Maps with the same keys and the same value at each key are equal.
proof fn lemma_pairs_map_ext(s: Seq<(String, String)>, m: Map<Seq<char>, Seq<char>>)
    requires
        keys_unique(s),
        forall|i: int| 0 <= i < s.len() ==> m.contains_key((#[trigger] s[i]).0@) && m[s[i].0@] == s[i].1@,
        forall|k: Seq<char>| #[trigger] m.contains_key(k) ==> exists|i: int| 0 <= i < s.len() && (#[trigger] s[i]).0@ == k,
    ensures
        pairs_map(s) == m,
{
    assert forall|k: Seq<char>| #[trigger] pairs_map(s).contains_key(k) <==> m.contains_key(k) by {
        if pairs_map(s).contains_key(k) {
            let i = choose|i: int| 0 <= i < s.len() && (#[trigger] s[i]).0@ == k;
            assert(m.contains_key(s[i].0@));
        }
    }
    assert forall|k: Seq<char>| #[trigger] pairs_map(s).contains_key(k) implies pairs_map(s)[k] == m[k] by {
        let i = choose|i: int| 0 <= i < s.len() && (#[trigger] s[i]).0@ == k;
        lemma_pairs_lookup(s, i);
    }
    assert(pairs_map(s) =~= m);
}

/// Rebuilding a registry from the pairs it hands out (`from_pairs` of `live_map`, as saving
/// and loading do) gives back the same bindings: inserting pairs with distinct directories in
/// turn builds exactly the map they stand for.
pub proof fn law_rebuild_from_pairs(s: Seq<(String, String)>)
    requires
        keys_unique(s),
    ensures
        pairs_fold(s) == pairs_map(s),
    decreases s.len(),
{
    if s.len() > 0 {
        let t = s.drop_last();
        assert(keys_unique(t)) by {
            assert forall|i: int, j: int| 0 <= i < j < t.len() implies (#[trigger] t[i]).0@ != (#[trigger] t[j]).0@ by {
                assert(t[i] == s[i] && t[j] == s[j]);
            }
        }
        law_rebuild_from_pairs(t);
        let m = pairs_map(t).insert(s.last().0@, s.last().1@);
        assert forall|i: int| 0 <= i < s.len() implies m.contains_key((#[trigger] s[i]).0@) && m[s[i].0@] == s[i].1@ by {
            if i < t.len() {
                assert(t[i] == s[i]);
                lemma_pairs_lookup(t, i);
                assert(s[i].0@ != s[s.len() - 1].0@);
            }
        }
        assert forall|k: Seq<char>| #[trigger] m.contains_key(k) implies exists|i: int| 0 <= i < s.len() && (#[trigger] s[i]).0@ == k by {
            if k != s.last().0@ {
                let i = choose|i: int| 0 <= i < t.len() && (#[trigger] t[i]).0@ == k;
                assert(s[i] == t[i]);
            } else {
                assert(s[s.len() - 1].0@ == k);
            }
        }
        lemma_pairs_map_ext(s, m);
    }
}

/// The bindings of `m` whose workspace is among `live`.
pub open spec fn reconciled(m: Map<Seq<char>, Seq<char>>, live: Seq<Seq<char>>) -> Map<
    Seq<char>,
    Seq<char>,
> {
    Map::new(|k: Seq<char>| m.contains_key(k) && live.contains(m[k]), |k: Seq<char>| m[k])
}

/// Whether some binding of `m` names a workspace that is not among `live`.
pub open spec fn dropped_any(m: Map<Seq<char>, Seq<char>>, live: Seq<Seq<char>>) -> bool {
    exists|k: Seq<char>| #[trigger] m.contains_key(k) && !live.contains(m[k])
}

proof fn lemma_pairs_same_views(a: Seq<(String, String)>, b: Seq<(String, String)>)
    requires
        keys_unique(a),
        a.len() == b.len(),
        forall|i: int| 0 <= i < a.len() ==> (#[trigger] a[i]).0@ == b[i].0@ && a[i].1@ == b[i].1@,
    ensures
        keys_unique(b),
        pairs_map(a) == pairs_map(b),
{
    assert forall|i: int, j: int| 0 <= i < j < b.len() implies (#[trigger] b[i]).0@ != (#[trigger] b[j]).0@ by {
        assert(a[i].0@ != a[j].0@);
    }
    let m = pairs_map(a);
    assert forall|i: int| 0 <= i < b.len() implies m.contains_key((#[trigger] b[i]).0@) && m[b[i].0@] == b[i].1@ by {
        lemma_pairs_lookup(a, i);
    }
    assert forall|k: Seq<char>| #[trigger] m.contains_key(k) implies exists|i: int| 0 <= i < b.len() && (#[trigger] b[i]).0@ == k by {
        let i = choose|i: int| 0 <= i < a.len() && (#[trigger] a[i]).0@ == k;
        assert(b[i].0@ == k);
    }
    lemma_pairs_map_ext(b, m);
}

fn clone_pair(p: &(String, String)) -> (r: (String, String))
    ensures
        r.0@ == p.0@,
        r.1@ == p.1@,
{
    (String::from_str(p.0.as_str()), String::from_str(p.1.as_str()))
}

/// Which workspace muster created for which project directory. Identity is assigned when a
/// workspace is created, never inferred from where its panes happen to be.
#[derive(Debug)]
pub struct Registry {
    map: Vec<(String, String)>,
}

impl View for Registry {
    type V = Map<Seq<char>, Seq<char>>;

    closed spec fn view(&self) -> Map<Seq<char>, Seq<char>> {
        pairs_map(self.map@)
    }
}

/// The key a directory is stored under.
fn key(dir: &str) -> (k: String)
    ensures
        k@ == dir@,
{
    String::from_str(dir)
}

impl Registry {
    #[verifier::type_invariant]
    spec fn inv(self) -> bool {
        keys_unique(self.map@)
    }

    /// An empty registry.
    pub fn new() -> (r: Registry)
        ensures
            r@ == Map::<Seq<char>, Seq<char>>::empty(),
    {
        let r = Registry { map: Vec::new() };
        assert(r@ =~= Map::<Seq<char>, Seq<char>>::empty());
        r
    }

    fn find(&self, dir: &str) -> (r: Option<usize>)
        ensures
            match r {
                Some(i) => i < self.map@.len() && self.map@[i as int].0@ == dir@,
                None => forall|i: int| 0 <= i < self.map@.len() ==> (#[trigger] self.map@[i]).0@ != dir@,
            },
    {
        let mut i: usize = 0;
        while i < self.map.len()
            invariant
                i <= self.map@.len(),
                forall|k: int| 0 <= k < i ==> (#[trigger] self.map@[k]).0@ != dir@,
            decreases self.map@.len() - i,
        {
            if same_str(self.map[i].0.as_str(), dir) {
                return Some(i);
            }
            i = i + 1;
        }
        None
    }

    /// The workspace bound to `dir`, if any.
    pub fn workspace_for(&self, dir: &str) -> (r: Option<&String>)
        ensures
            match r {
                Some(w) => self@.contains_key(dir@) && self@[dir@] == w@,
                None => !self@.contains_key(dir@),
            },
    {
        proof { use_type_invariant(self); }
        match self.find(dir) {
            Some(i) => {
                proof { lemma_pairs_lookup(self.map@, i as int); }
                Some(&self.map[i].1)
            },
            None => None,
        }
    }

    /// Binds `dir` to the workspace `ws`, replacing any earlier binding of `dir`.
    pub fn bind(&mut self, dir: &str, ws: &str)
        ensures
            final(self)@ == old(self)@.insert(dir@, ws@),
    {
        proof { use_type_invariant(&*self); }
        let ghost s = self.map@;
        let entry: (String, String) = (key(dir), String::from_str(ws));
        match self.find(dir) {
            Some(i) => {
                let mut m: Vec<(String, String)> = Vec::new();
                std::mem::swap(&mut m, &mut self.map);
                m.set(i, entry);
                proof {
                    assert(keys_unique(m@)) by {
                        assert forall|a: int, b: int| 0 <= a < b < m@.len() implies (#[trigger] m@[a]).0@ != (#[trigger] m@[b]).0@ by {
                            if a != i as int && b != i as int {
                                assert(m@[a] == s[a] && m@[b] == s[b]);
                            } else if a == i as int {
                                assert(m@[b] == s[b]);
                            } else {
                                assert(m@[a] == s[a]);
                            }
                        }
                    }
                }
                self.map = m;
                proof {
                    let t = s.update(i as int, entry);
                    assert(t == self.map@);
                    let m = pairs_map(s).insert(dir@, ws@);
                    assert forall|j: int| 0 <= j < t.len() implies m.contains_key((#[trigger] t[j]).0@) && m[t[j].0@] == t[j].1@ by {
                        if j != i {
                            lemma_pairs_lookup(s, j);
                            if j < i { assert(s[j].0@ != s[i as int].0@); } else { assert(s[i as int].0@ != s[j].0@); }
                        }
                    }
                    assert forall|k: Seq<char>| #[trigger] m.contains_key(k) implies exists|j: int| 0 <= j < t.len() && (#[trigger] t[j]).0@ == k by {
                        if k == dir@ {
                            assert(t[i as int].0@ == k);
                        } else {
                            let j = choose|j: int| 0 <= j < s.len() && (#[trigger] s[j]).0@ == k;
                            assert(t[j] == s[j]);
                        }
                    }
                    lemma_pairs_map_ext(t, m);
                }
            },
            None => {
                let mut m: Vec<(String, String)> = Vec::new();
                std::mem::swap(&mut m, &mut self.map);
                m.push(entry);
                proof {
                    assert(keys_unique(m@)) by {
                        assert forall|a: int, b: int| 0 <= a < b < m@.len() implies (#[trigger] m@[a]).0@ != (#[trigger] m@[b]).0@ by {
                            assert(m@[a] == s[a]);
                            if b < s.len() {
                                assert(m@[b] == s[b]);
                            }
                        }
                    }
                }
                self.map = m;
                proof {
                    let t = s.push(entry);
                    assert(t == self.map@);
                    let m = pairs_map(s).insert(dir@, ws@);
                    assert forall|j: int| 0 <= j < t.len() implies m.contains_key((#[trigger] t[j]).0@) && m[t[j].0@] == t[j].1@ by {
                        if j < s.len() {
                            lemma_pairs_lookup(s, j);
                            assert(t[j] == s[j]);
                        }
                    }
                    assert forall|k: Seq<char>| #[trigger] m.contains_key(k) implies exists|j: int| 0 <= j < t.len() && (#[trigger] t[j]).0@ == k by {
                        if k == dir@ {
                            assert(t[s.len() as int].0@ == k);
                        } else {
                            let j = choose|j: int| 0 <= j < s.len() && (#[trigger] s[j]).0@ == k;
                            assert(t[j] == s[j]);
                        }
                    }
                    lemma_pairs_map_ext(t, m);
                }
            },
        }
    }

    /// Drops every binding whose workspace is not among the `live` workspace ids, and says
    /// whether any was dropped.
    pub fn reconcile(&mut self, live: &[String]) -> (changed: bool)
        ensures
            final(self)@ == reconciled(old(self)@, strs(live@)),
            changed == dropped_any(old(self)@, strs(live@)),
    {
        proof { use_type_invariant(&*self); }
        let ghost s = self.map@;
        let ghost lv = strs(live@);
        let mut kept: Vec<(String, String)> = Vec::new();
        let mut dropped: bool = false;
        let ghost mut idx: Seq<int> = Seq::empty();
        let mut i: usize = 0;
        while i < self.map.len()
            invariant
                s == self.map@,
                lv == strs(live@),
                keys_unique(s),
                i <= s.len(),
                kept@.len() == idx.len(),
                forall|j: int| 0 <= j < idx.len() ==> 0 <= #[trigger] idx[j] < i,
                forall|a: int, b: int| 0 <= a < b < idx.len() ==> #[trigger] idx[a] < #[trigger] idx[b],
                forall|j: int|
                    0 <= j < idx.len() ==> (#[trigger] kept@[j]).0@ == s[idx[j]].0@ && kept@[j].1@
                        == s[idx[j]].1@ && lv.contains(s[idx[j]].1@),
                forall|p: int| 0 <= p < i && lv.contains(#[trigger] s[p].1@) ==> idx.contains(p),
                dropped == exists|p: int| 0 <= p < i && !lv.contains(#[trigger] s[p].1@),
            decreases s.len() - i,
        {
            if contains_str(live, self.map[i].1.as_str()) {
                let e: (String, String) = clone_pair(&self.map[i]);
                kept.push(e);
                proof {
                    let ni = idx.push(i as int);
                    assert forall|p: int| 0 <= p < i + 1 && lv.contains(#[trigger] s[p].1@) implies ni.contains(p) by {
                        if p < i {
                            let j = choose|j: int| 0 <= j < idx.len() && idx[j] == p;
                            assert(ni[j] == p);
                        } else {
                            assert(ni[idx.len() as int] == p);
                        }
                    }
                    idx = ni;
                }
            } else {
                dropped = true;
            }
            i = i + 1;
        }
        proof {
            assert(keys_unique(kept@)) by {
                assert forall|a: int, b: int| 0 <= a < b < kept@.len() implies (#[trigger] kept@[a]).0@ != (#[trigger] kept@[b]).0@ by {
                    assert(idx[a] < idx[b]);
                    assert(s[idx[a]].0@ != s[idx[b]].0@);
                }
            }
            let target = reconciled(pairs_map(s), lv);
            assert forall|j: int| 0 <= j < kept@.len() implies target.contains_key((#[trigger] kept@[j]).0@) && target[kept@[j].0@] == kept@[j].1@ by {
                lemma_pairs_lookup(s, idx[j]);
            }
            assert forall|k: Seq<char>| #[trigger] target.contains_key(k) implies exists|j: int| 0 <= j < kept@.len() && (#[trigger] kept@[j]).0@ == k by {
                let p = choose|p: int| 0 <= p < s.len() && (#[trigger] s[p]).0@ == k;
                lemma_pairs_lookup(s, p);
                assert(lv.contains(s[p].1@));
                assert(idx.contains(p));
                let j = choose|j: int| 0 <= j < idx.len() && idx[j] == p;
                assert(kept@[j].0@ == k);
            }
            lemma_pairs_map_ext(kept@, target);
            if dropped {
                let p = choose|p: int| 0 <= p < s.len() && !lv.contains(#[trigger] s[p].1@);
                lemma_pairs_lookup(s, p);
                assert(pairs_map(s).contains_key(s[p].0@));
            } else {
                assert forall|k: Seq<char>| #[trigger] pairs_map(s).contains_key(k) implies lv.contains(pairs_map(s)[k]) by {
                    let p = choose|p: int| 0 <= p < s.len() && (#[trigger] s[p]).0@ == k;
                    lemma_pairs_lookup(s, p);
                }
            }
        }
        self.map = kept;
        dropped
    }

    /// The bindings, each directory once, as (directory, workspace id) pairs.
    pub fn live_map(&self) -> (r: Vec<(String, String)>)
        ensures
            keys_unique(r@),
            pairs_map(r@) == self@,
    {
        proof { use_type_invariant(self); }
        let mut out: Vec<(String, String)> = Vec::new();
        let mut i: usize = 0;
        while i < self.map.len()
            invariant
                i <= self.map@.len(),
                out@.len() == i,
                forall|j: int| 0 <= j < i ==> (#[trigger] out@[j]).0@ == self.map@[j].0@ && out@[j].1@ == self.map@[j].1@,
            decreases self.map@.len() - i,
        {
            out.push(clone_pair(&self.map[i]));
            i = i + 1;
        }
        proof { lemma_pairs_same_views(self.map@, out@); }
        out
    }

    /// A registry holding the given bindings; where a directory occurs twice, the later
    /// binding wins.
    pub fn from_pairs(pairs: &[(String, String)]) -> (r: Registry)
        ensures
            r@ == pairs_fold(pairs@),
    {
        let mut reg: Registry = Registry::new();
        let mut i: usize = 0;
        while i < pairs.len()
            invariant
                i <= pairs@.len(),
                reg@ == pairs_fold(pairs@.take(i as int)),
            decreases pairs@.len() - i,
        {
            reg.bind(pairs[i].0.as_str(), pairs[i].1.as_str());
            assert(pairs@.take(i as int + 1).drop_last() =~= pairs@.take(i as int));
            i = i + 1;
        }
        assert(pairs@.take(pairs@.len() as int) =~= pairs@);
        reg
    }

    /// Drops the binding of `dir`, if there is one.
    pub fn unbind(&mut self, dir: &str)
        ensures
            final(self)@ == old(self)@.remove(dir@),
    {
        proof { use_type_invariant(&*self); }
        let ghost s = self.map@;
        match self.find(dir) {
            Some(i) => {
                let mut m: Vec<(String, String)> = Vec::new();
                std::mem::swap(&mut m, &mut self.map);
                let _removed = m.remove(i);
                proof {
                    assert(keys_unique(m@)) by {
                        assert forall|a: int, b: int| 0 <= a < b < m@.len() implies (#[trigger] m@[a]).0@ != (#[trigger] m@[b]).0@ by {
                            let sa = if a < i { a } else { a + 1 };
                            let sb = if b < i { b } else { b + 1 };
                            assert(m@[a] == s[sa] && m@[b] == s[sb]);
                        }
                    }
                }
                self.map = m;
                proof {
                    let t = s.remove(i as int);
                    assert(t == self.map@);
                    let m = pairs_map(s).remove(dir@);
                    assert forall|j: int| 0 <= j < t.len() implies m.contains_key((#[trigger] t[j]).0@) && m[t[j].0@] == t[j].1@ by {
                        let sj = if j < i { j } else { j + 1 };
                        assert(t[j] == s[sj]);
                        lemma_pairs_lookup(s, sj);
                        if sj < i { assert(s[sj].0@ != s[i as int].0@); } else { assert(s[i as int].0@ != s[sj].0@); }
                    }
                    assert forall|k: Seq<char>| #[trigger] m.contains_key(k) implies exists|j: int| 0 <= j < t.len() && (#[trigger] t[j]).0@ == k by {
                        let j = choose|j: int| 0 <= j < s.len() && (#[trigger] s[j]).0@ == k;
                        if j < i {
                            assert(t[j] == s[j]);
                        } else {
                            assert(j != i);
                            assert(t[j - 1] == s[j]);
                        }
                    }
                    lemma_pairs_map_ext(t, m);
                }
            },
            None => {
                proof {
                    lemma_pairs_absent(s, dir@);
                    assert(pairs_map(s).remove(dir@) =~= pairs_map(s));
                }
            },
        }
    }
}

/// After `bind(dir, ws)`, `workspace_for(dir)` gives `ws`, and every other directory keeps
/// what it had.
pub proof fn law_bind_then_lookup(
    m: Map<Seq<char>, Seq<char>>,
    dir: Seq<char>,
    ws: Seq<char>,
    other: Seq<char>,
)
    ensures
        m.insert(dir, ws).contains_key(dir),
        m.insert(dir, ws)[dir] == ws,
        other != dir ==> (m.insert(dir, ws).contains_key(other) == m.contains_key(other)),
        other != dir && m.contains_key(other) ==> m.insert(dir, ws)[other] == m[other],
{
}

/// After `unbind(dir)`, `workspace_for(dir)` gives nothing, and every other directory keeps
/// what it had.
pub proof fn law_unbind_then_lookup(m: Map<Seq<char>, Seq<char>>, dir: Seq<char>, other: Seq<char>)
    ensures
        !m.remove(dir).contains_key(dir),
        other != dir ==> (m.remove(dir).contains_key(other) == m.contains_key(other)),
        other != dir && m.contains_key(other) ==> m.remove(dir)[other] == m[other],
{
}

/// After `reconcile(live)` a directory is bound exactly when it was bound to a live
/// workspace, to the same workspace; a second `reconcile` with the same ids changes nothing
/// and reports no change.
pub proof fn law_reconcile(m: Map<Seq<char>, Seq<char>>, live: Seq<Seq<char>>, k: Seq<char>)
    ensures
        reconciled(m, live).contains_key(k) <==> (m.contains_key(k) && live.contains(m[k])),
        reconciled(m, live).contains_key(k) ==> reconciled(m, live)[k] == m[k],
        reconciled(reconciled(m, live), live) == reconciled(m, live),
        !dropped_any(reconciled(m, live), live),
{
    assert(reconciled(reconciled(m, live), live) =~= reconciled(m, live));
}

impl Default for Registry {
    /// An empty registry.
    fn default() -> (r: Registry)
        ensures
            r@ == Map::<Seq<char>, Seq<char>>::empty(),
    {
        Registry::new()
    }
}

} // verus!
