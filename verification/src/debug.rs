//! The debug overlay's model: labelled text entries kept in key order,
//! and how the on-screen lines follow them.
use vstd::prelude::*;
use vstd::string::*;

verus! {

/// One line of the overlay: an optional label and a value.
#[derive(Debug)]
pub struct DebugEntry {
    pub label: Option<String>,
    pub value: String,
}

impl Clone for DebugEntry {
    fn clone(&self) -> (c: Self)
        ensures
            c == *self,
    {
        let label = match &self.label {
            Some(l) => Some(l.clone()),
            None => None,
        };
        DebugEntry { label, value: self.value.clone() }
    }
}

/// Lexicographic order of character sequences by code point, the order
/// in which Rust orders strings.
pub open spec fn text_lt(a: Seq<char>, b: Seq<char>) -> bool
    decreases a.len(),
{
    if a.len() == 0 {
        b.len() > 0
    } else if b.len() == 0 {
        false
    } else if a[0] != b[0] {
        (a[0] as int) < (b[0] as int)
    } else {
        text_lt(a.drop_first(), b.drop_first())
    }
}

proof fn lemma_text_lt_irreflexive(a: Seq<char>)
    ensures
        !text_lt(a, a),
    decreases a.len(),
{
    if a.len() > 0 {
        lemma_text_lt_irreflexive(a.drop_first());
    }
}

proof fn lemma_text_lt_trichotomy(a: Seq<char>, b: Seq<char>)
    ensures
        a == b || text_lt(a, b) || text_lt(b, a),
    decreases a.len(),
{
    if a.len() > 0 && b.len() > 0 {
        if a[0] == b[0] {
            lemma_text_lt_trichotomy(a.drop_first(), b.drop_first());
            if a.drop_first() == b.drop_first() {
                assert(a =~= seq![a[0]] + a.drop_first());
                assert(b =~= seq![b[0]] + b.drop_first());
            }
        } else {
        }
    } else if a.len() == 0 && b.len() == 0 {
        assert(a =~= b);
    }
}

proof fn lemma_text_lt_asymmetric(a: Seq<char>, b: Seq<char>)
    ensures
        text_lt(a, b) ==> !text_lt(b, a),
    decreases a.len(),
{
    if a.len() > 0 && b.len() > 0 && a[0] == b[0] {
        lemma_text_lt_asymmetric(a.drop_first(), b.drop_first());
    }
}

proof fn lemma_text_lt_transitive(a: Seq<char>, b: Seq<char>, c: Seq<char>)
    requires
        text_lt(a, b),
        text_lt(b, c),
    ensures
        text_lt(a, c),
    decreases a.len(),
{
    if a.len() > 0 && b.len() > 0 && c.len() > 0 {
        if a[0] == b[0] && b[0] == c[0] {
            lemma_text_lt_transitive(a.drop_first(), b.drop_first(), c.drop_first());
        }
    }
}

/// Whether `a` orders before `b`.
pub fn text_less(a: &str, b: &str) -> (r: bool)
    ensures
        r == text_lt(a@, b@),
{
    let n = a.unicode_len();
    let m = b.unicode_len();
    let mut i: usize = 0;
    proof {
        assert(a@.subrange(0, n as int) =~= a@);
        assert(b@.subrange(0, m as int) =~= b@);
        assert(a@.subrange(0, 0) =~= b@.subrange(0, 0));
    }
    while i < n && i < m
        invariant
            n == a@.len(),
            m == b@.len(),
            i <= n,
            i <= m,
            a@.subrange(0, i as int) == b@.subrange(0, i as int),
            text_lt(a@, b@) == text_lt(a@.subrange(i as int, n as int), b@.subrange(i as int, m as int)),
        decreases n - i,
    {
        let ca = a.get_char(i);
        let cb = b.get_char(i);
        if ca != cb {
            proof {
                let sa = a@.subrange(i as int, n as int);
                let sb = b@.subrange(i as int, m as int);
                assert(sa[0] == ca && sb[0] == cb);
            }
            return (ca as u32) < (cb as u32);
        }
        proof {
            let sa = a@.subrange(i as int, n as int);
            let sb = b@.subrange(i as int, m as int);
            assert(sa.drop_first() =~= a@.subrange(i + 1, n as int));
            assert(sb.drop_first() =~= b@.subrange(i + 1, m as int));
            assert(a@.subrange(0, i + 1) =~= a@.subrange(0, i as int).push(ca));
            assert(b@.subrange(0, i + 1) =~= b@.subrange(0, i as int).push(cb));
        }
        i = i + 1;
    }
    proof {
        let sa = a@.subrange(i as int, n as int);
        let sb = b@.subrange(i as int, m as int);
        assert(sa.len() == 0 || sb.len() == 0);
    }
    i == n && i < m
}

} // verus!

verus! {

/// The overlay's state: whether it is shown, and its entries in key
/// order, each key once.
#[derive(Debug)]
pub struct DebugInfo {
    pub is_active: bool,
    pub entries: Vec<(String, DebugEntry)>,
}

/// The entry stored under key `k`, if any (the last one, should a key
/// occur more than once).
pub open spec fn entry_for(entries: Seq<(String, DebugEntry)>, k: Seq<char>) -> Option<DebugEntry>
    decreases entries.len(),
{
    if entries.len() == 0 {
        None
    } else if entries.last().0@ == k {
        Some(entries.last().1)
    } else {
        entry_for(entries.drop_last(), k)
    }
}

/// Keys strictly increase along the entries.
pub open spec fn keys_sorted(entries: Seq<(String, DebugEntry)>) -> bool {
    forall|i: int, j: int|
        0 <= i < j < entries.len() ==> text_lt((#[trigger] entries[i]).0@, (#[trigger] entries[j]).0@)
}

/// The text of an overlay line: `label: value`, or the bare value.
pub open spec fn line_text(e: DebugEntry) -> Seq<char> {
    match e.label {
        Some(l) => l@ + ": "@ + e.value@,
        None => e.value@,
    }
}

proof fn lemma_entry_for_at(entries: Seq<(String, DebugEntry)>, i: int)
    requires
        keys_sorted(entries),
        0 <= i < entries.len(),
    ensures
        entry_for(entries, entries[i].0@) == Some(entries[i].1),
    decreases entries.len(),
{
    let k = entries[i].0@;
    let n = entries.len();
    if i < n - 1 {
        assert(text_lt(entries[i].0@, entries[n - 1].0@));
        lemma_text_lt_irreflexive(k);
        let t = entries.drop_last();
        assert forall|a: int, b: int| 0 <= a < b < t.len() implies text_lt(
            (#[trigger] t[a]).0@,
            (#[trigger] t[b]).0@,
        ) by {
            assert(text_lt(entries[a].0@, entries[b].0@));
        }
        assert(t[i] == entries[i]);
        lemma_entry_for_at(t, i);
    }
}

proof fn lemma_entry_for_same_matches(
    a: Seq<(String, DebugEntry)>,
    b: Seq<(String, DebugEntry)>,
    k: Seq<char>,
)
    requires
        a.len() == b.len(),
        forall|i: int| 0 <= i < a.len() ==> ((#[trigger] a[i]).0@ == k) == (b[i].0@ == k),
        forall|i: int| 0 <= i < a.len() && (#[trigger] a[i]).0@ == k ==> a[i].1 == b[i].1,
    ensures
        entry_for(a, k) == entry_for(b, k),
    decreases a.len(),
{
    if a.len() > 0 {
        let (ta, tb) = (a.drop_last(), b.drop_last());
        assert forall|i: int| 0 <= i < ta.len() implies ((#[trigger] ta[i]).0@ == k) == (tb[i].0@ == k) by {
            assert(ta[i] == a[i] && tb[i] == b[i]);
        }
        assert forall|i: int| 0 <= i < ta.len() && (#[trigger] ta[i]).0@ == k implies ta[i].1 == tb[i].1 by {
            assert(ta[i] == a[i] && tb[i] == b[i]);
        }
        assert(a.last() == a[a.len() - 1] && b.last() == b[b.len() - 1]);
        lemma_entry_for_same_matches(ta, tb, k);
    }
}

proof fn lemma_entry_for_concat(a: Seq<(String, DebugEntry)>, b: Seq<(String, DebugEntry)>, k: Seq<char>)
    ensures
        entry_for(a + b, k) == match entry_for(b, k) {
            Some(v) => Some(v),
            None => entry_for(a, k),
        },
    decreases b.len(),
{
    if b.len() == 0 {
        assert(a + b =~= a);
    } else {
        assert((a + b).drop_last() =~= a + b.drop_last());
        assert((a + b).last() == b.last());
        lemma_entry_for_concat(a, b.drop_last(), k);
    }
}

impl DebugInfo {
    /// The invariant: keys in strictly increasing order.
    pub open spec fn wf(&self) -> bool {
        keys_sorted(self.entries@)
    }

    /// The entry stored under key `k`, if any.
    pub open spec fn get(&self, k: Seq<char>) -> Option<DebugEntry> {
        entry_for(self.entries@, k)
    }

    /// Shows a hidden overlay and hides a shown one.
    pub fn toggle(&mut self)
        ensures
            final(self).is_active == !old(self).is_active,
            final(self).entries == old(self).entries,
    {
        self.is_active = !self.is_active;
    }

    /// Stores `entry` under `key`, replacing what was stored there and
    /// keeping the keys in order.
    pub fn insert(&mut self, key: String, entry: DebugEntry)
        requires
            old(self).wf(),
        ensures
            final(self).wf(),
            final(self).is_active == old(self).is_active,
            forall|k: Seq<char>|
                #[trigger] final(self).get(k) == if k == key@ {
                    Some(entry)
                } else {
                    old(self).get(k)
                },
    {
        let n = self.entries.len();
        let mut p: usize = 0;
        while p < n && text_less(self.entries[p].0.as_str(), key.as_str())
            invariant
                n == self.entries@.len(),
                p <= n,
                forall|j: int| 0 <= j < p ==> text_lt((#[trigger] self.entries@[j]).0@, key@),
            decreases n - p,
        {
            p = p + 1;
        }
        let ghost old_entries = self.entries@;
        if p < n && self.entries[p].0 == key {
            self.entries[p] = (key, entry);
            proof {
                let e = self.entries@;
                assert(e == old_entries.update(p as int, (e[p as int].0, entry)));
                assert forall|i: int, j: int| 0 <= i < j < e.len() implies text_lt(
                    (#[trigger] e[i]).0@,
                    (#[trigger] e[j]).0@,
                ) by {
                    assert(text_lt(old_entries[i].0@, old_entries[j].0@));
                }
                assert forall|k: Seq<char>| #[trigger] entry_for(e, k) == if k == key@ {
                    Some(entry)
                } else {
                    entry_for(old_entries, k)
                } by {
                    if k == key@ {
                        lemma_entry_for_at(e, p as int);
                    } else {
                        lemma_entry_for_other_update(old_entries, p as int, e[p as int], k);
                    }
                }
            }
        } else {
            proof {
                if p < n {
                    lemma_text_lt_trichotomy(old_entries[p as int].0@, key@);
                }
            }
            self.entries.insert(p, (key, entry));
            proof {
                let e = self.entries@;
                assert forall|i: int, j: int| 0 <= i < j < e.len() implies text_lt(
                    (#[trigger] e[i]).0@,
                    (#[trigger] e[j]).0@,
                ) by {
                    if j < p {
                        assert(text_lt(old_entries[i].0@, old_entries[j].0@));
                    } else if j == p {
                        assert(text_lt(old_entries[i].0@, key@));
                    } else if i > p {
                        assert(text_lt(old_entries[i - 1].0@, old_entries[j - 1].0@));
                    } else if i == p {
                        if j - 1 > p {
                            assert(text_lt(old_entries[p as int].0@, old_entries[j - 1].0@));
                            lemma_text_lt_transitive(key@, old_entries[p as int].0@, old_entries[j - 1].0@);
                        }
                    } else {
                        assert(text_lt(old_entries[i].0@, key@));
                        if j - 1 > p {
                            assert(text_lt(old_entries[p as int].0@, old_entries[j - 1].0@));
                            lemma_text_lt_transitive(key@, old_entries[p as int].0@, old_entries[j - 1].0@);
                        }
                        lemma_text_lt_transitive(old_entries[i].0@, key@, old_entries[j - 1].0@);
                    }
                }
                assert forall|k: Seq<char>| #[trigger] entry_for(e, k) == if k == key@ {
                    Some(entry)
                } else {
                    entry_for(old_entries, k)
                } by {
                    if k == key@ {
                        lemma_entry_for_at(e, p as int);
                    } else {
                        lemma_entry_for_other_insert(old_entries, p as int, e[p as int], k);
                    }
                }
            }
        }
    }

    /// The overlay's lines, in key order.
    pub fn line_texts(&self) -> (v: Vec<String>)
        ensures
            v@.len() == self.entries@.len(),
            forall|i: int| 0 <= i < v@.len() ==> (#[trigger] v@[i])@ == line_text(self.entries@[i].1),
    {
        let mut v: Vec<String> = Vec::new();
        let mut i: usize = 0;
        while i < self.entries.len()
            invariant
                i <= self.entries@.len(),
                v@.len() == i,
                forall|j: int| 0 <= j < i ==> (#[trigger] v@[j])@ == line_text(self.entries@[j].1),
            decreases self.entries@.len() - i,
        {
            let e = &self.entries[i].1;
            let t = match &e.label {
                Some(l) => {
                    let mut t = l.clone();
                    t.append(": ");
                    t.append(e.value.as_str());
                    t
                },
                None => e.value.clone(),
            };
            v.push(t);
            i = i + 1;
        }
        v
    }
}

proof fn lemma_entry_for_other_update(
    es: Seq<(String, DebugEntry)>,
    p: int,
    x: (String, DebugEntry),
    k: Seq<char>,
)
    requires
        0 <= p < es.len(),
        x.0@ == es[p].0@,
        k != x.0@,
    ensures
        entry_for(es.update(p, x), k) == entry_for(es, k),
{
    let e = es.update(p, x);
    assert forall|i: int| 0 <= i < e.len() implies ((#[trigger] e[i]).0@ == k) == (es[i].0@ == k) by {
        if i != p {
            assert(e[i] == es[i]);
        }
    }
    assert forall|i: int| 0 <= i < e.len() && (#[trigger] e[i]).0@ == k implies e[i].1 == es[i].1 by {
        if i != p {
            assert(e[i] == es[i]);
        }
    }
    lemma_entry_for_same_matches(e, es, k);
}

proof fn lemma_entry_for_other_insert(
    es: Seq<(String, DebugEntry)>,
    p: int,
    x: (String, DebugEntry),
    k: Seq<char>,
)
    requires
        0 <= p <= es.len(),
        k != x.0@,
    ensures
        entry_for(es.insert(p, x), k) == entry_for(es, k),
{
    let a = es.take(p);
    let c = es.skip(p);
    assert(es.insert(p, x) =~= a + (seq![x] + c));
    assert(es =~= a + c);
    lemma_entry_for_concat(a, seq![x] + c, k);
    lemma_entry_for_concat(seq![x], c, k);
    lemma_entry_for_concat(a, c, k);
    assert(seq![x].drop_last() =~= Seq::<(String, DebugEntry)>::empty());
    assert(seq![x].last() == x);
    assert(entry_for(seq![x].drop_last(), k) is None);
    assert(entry_for(seq![x], k) is None);
}

impl Default for DebugInfo {
    fn default() -> (d: Self)
        ensures
            d.wf(),
            !d.is_active,
            d.entries@.len() == 0,
    {
        DebugInfo { is_active: false, entries: Vec::new() }
    }
}

/// How the overlay's line nodes follow its entries.
#[derive(Clone, Copy, Debug, PartialEq, Eq, Structural)]
pub enum LineSync {
    /// Spawn this many new line nodes.
    Spawn(usize),
    /// Despawn the line nodes in `from..to`.
    Despawn { from: usize, to: usize },
    /// The node count already matches.
    Keep,
}

/// Brings the number of line nodes to the number of entries: spawn the
/// missing ones, or despawn the surplus from the end.
pub fn sync_debug_lines(num_children: usize, num_entries: usize) -> (s: LineSync)
    ensures
        s == (if num_children < num_entries {
            LineSync::Spawn((num_entries - num_children) as usize)
        } else if num_children > num_entries {
            LineSync::Despawn { from: num_entries, to: num_children }
        } else {
            LineSync::Keep
        }),
{
    if num_children < num_entries {
        LineSync::Spawn(num_entries - num_children)
    } else if num_children > num_entries {
        LineSync::Despawn { from: num_entries, to: num_children }
    } else {
        LineSync::Keep
    }
}

} // verus!

verus! {

/// The order of overlay keys is a strict total order: no key precedes
/// itself, no two keys precede each other, precedence chains, and of two
/// different keys one precedes the other.
pub proof fn lemma_text_order_strict_total(a: Seq<char>, b: Seq<char>, c: Seq<char>)
    ensures
        !text_lt(a, a),
        text_lt(a, b) ==> !text_lt(b, a),
        text_lt(a, b) && text_lt(b, c) ==> text_lt(a, c),
        a != b ==> text_lt(a, b) || text_lt(b, a),
{
    lemma_text_lt_irreflexive(a);
    lemma_text_lt_asymmetric(a, b);
    if text_lt(a, b) && text_lt(b, c) {
        lemma_text_lt_transitive(a, b, c);
    }
    lemma_text_lt_trichotomy(a, b);
}

} // verus!

verus! {

/// Records the game's version line, while the overlay is shown.
pub fn update_version_debug_info(debug_info: &mut DebugInfo, version: &str)
    requires
        old(debug_info).wf(),
    ensures
        final(debug_info).wf(),
        final(debug_info).is_active == old(debug_info).is_active,
        !old(debug_info).is_active ==> final(debug_info).entries@ == old(debug_info).entries@,
        old(debug_info).is_active ==> (final(debug_info).get("00_VERSION"@) matches Some(e) && e.label is None
            && e.value@ == "superdupervoxels "@ + version@),
        forall|k: Seq<char>| k != "00_VERSION"@ ==> #[trigger] final(debug_info).get(k) == old(debug_info).get(k),
{
    if !debug_info.is_active {
        return;
    }
    let mut value = String::from_str("superdupervoxels ");
    value.append(version);
    let key = String::from_str("00_VERSION");
    debug_info.insert(key, DebugEntry { label: None, value });
}

/// Records the frame-rate line, while the overlay is shown and a
/// measurement exists.
pub fn update_fps_debug_stats(debug_info: &mut DebugInfo, fps_text: Option<String>)
    requires
        old(debug_info).wf(),
    ensures
        final(debug_info).wf(),
        final(debug_info).is_active == old(debug_info).is_active,
        !(old(debug_info).is_active && fps_text is Some) ==> final(debug_info).entries@ == old(debug_info).entries@,
        old(debug_info).is_active && fps_text is Some ==> (final(debug_info).get("0_FPS"@) matches Some(e)
            && e.label matches Some(l) && l@ == "FPS"@ && Some(e.value) == fps_text),
        forall|k: Seq<char>| k != "0_FPS"@ ==> #[trigger] final(debug_info).get(k) == old(debug_info).get(k),
{
    if !debug_info.is_active {
        return;
    }
    if let Some(value) = fps_text {
        let key = String::from_str("0_FPS");
        let label = String::from_str("FPS");
        debug_info.insert(key, DebugEntry { label: Some(label), value });
    }
}

} // verus!

verus! {

/// Following a sync leaves exactly one line node per entry: the spawned
/// nodes make up the shortfall, the despawned range is the surplus.
pub proof fn lemma_sync_matches_entries(num_children: usize, num_entries: usize, s: LineSync)
    requires
        s == (if num_children < num_entries {
            LineSync::Spawn((num_entries - num_children) as usize)
        } else if num_children > num_entries {
            LineSync::Despawn { from: num_entries, to: num_children }
        } else {
            LineSync::Keep
        }),
    ensures
        match s {
            LineSync::Spawn(n) => num_children + n == num_entries,
            LineSync::Despawn { from, to } => from == num_entries && to == num_children && num_children
                - (to - from) == num_entries,
            LineSync::Keep => num_children == num_entries,
        },
{
}

} // verus!
