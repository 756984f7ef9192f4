use vstd::prelude::*;
use std::collections::HashMap;
use vstd::string::StringExecFns;
use vstd::utf8::{decode_utf8, valid_utf8, encode_utf8_decode_utf8};
use crate::code::{Code, CharCodes, infer_spec, abbr_spec, table_of};
use crate::dict::{Vocab, Dict, text, line_text, push_line};

verus! {

/// `x` placed into `s` after every entry whose weight is at least its own.
pub open spec fn insert_desc(s: Seq<Vocab>, x: Vocab) -> Seq<Vocab>
    decreases s.len(),
{
    if s.len() == 0 {
        seq![x]
    } else if s[0].weight >= x.weight {
        seq![s[0]] + insert_desc(s.drop_first(), x)
    } else {
        seq![x] + s
    }
}

/// `s` ordered by descending weight; entries of equal weight keep their order.
pub open spec fn sort_desc(s: Seq<Vocab>) -> Seq<Vocab>
    decreases s.len(),
{
    if s.len() == 0 {
        s
    } else {
        insert_desc(sort_desc(s.drop_last()), s.last())
    }
}

proof fn lemma_insert_desc_at(s: Seq<Vocab>, x: Vocab, j: int)
    requires
        0 <= j <= s.len(),
        forall|t: int| 0 <= t < j ==> s[t].weight >= x.weight,
        j < s.len() ==> s[j].weight < x.weight,
    ensures
        insert_desc(s, x) == s.insert(j, x),
    decreases s.len(),
{
    if s.len() == 0 {
        assert(s.insert(j, x) =~= seq![x]);
    } else if j == 0 {
        assert(s.insert(0, x) =~= seq![x] + s);
    } else {
        let t = s.drop_first();
        lemma_insert_desc_at(t, x, j - 1);
        assert(s.insert(j, x) =~= seq![s[0]] + t.insert(j - 1, x));
    }
}

/// Orders `v` by descending weight, keeping the order of entries of equal weight.
pub fn sort_by_weight(v: &Vec<Vocab>) -> (r: Vec<Vocab>)
    ensures
        r@ == sort_desc(v@),
{
    let mut out: Vec<Vocab> = Vec::new();
    let mut i: usize = 0;
    while i < v.len()
        invariant
            i <= v@.len(),
            out@ == sort_desc(v@.take(i as int)),
        decreases v@.len() - i,
    {
        let x = v[i].duplicate();
        let mut j: usize = 0;
        while j < out.len() && out[j].weight >= x.weight
            invariant
                j <= out@.len(),
                forall|t: int| 0 <= t < j ==> out@[t].weight >= x.weight,
            decreases out@.len() - j,
        {
            j += 1;
        }
        proof {
            lemma_insert_desc_at(out@, x, j as int);
            assert(v@.take(i + 1).drop_last() == v@.take(i as int));
        }
        out.insert(j, x);
        i += 1;
    }
    proof {
        assert(v@.take(v@.len() as int) == v@);
    }
    out
}


/// The longest key that a bucket table files.
pub const MAX_KEY_LEN: usize = 4;

spec fn byte_or_zero(k: Seq<u8>, i: int) -> u64 {
    if i < k.len() {
        k[i] as u64
    } else {
        0
    }
}

/// A key of at most four bytes as one integer: its bytes and its length.
spec fn pack(k: Seq<u8>) -> u64 {
    byte_or_zero(k, 0) | (byte_or_zero(k, 1) << 8u64) | (byte_or_zero(k, 2) << 16u64) | (
    byte_or_zero(k, 3) << 24u64) | ((k.len() as u64) << 32u64)
}

proof fn lemma_pack_fields(a0: u64, a1: u64, a2: u64, a3: u64, la: u64, b0: u64, b1: u64, b2: u64, b3: u64, lb: u64)
    requires
        a0 < 256 && a1 < 256 && a2 < 256 && a3 < 256 && la < 256,
        b0 < 256 && b1 < 256 && b2 < 256 && b3 < 256 && lb < 256,
        a0 | (a1 << 8u64) | (a2 << 16u64) | (a3 << 24u64) | (la << 32u64) == b0 | (b1 << 8u64) | (b2
            << 16u64) | (b3 << 24u64) | (lb << 32u64),
    ensures
        a0 == b0 && a1 == b1 && a2 == b2 && a3 == b3 && la == lb,
{
    assert(a0 == b0 && a1 == b1 && a2 == b2 && a3 == b3 && la == lb) by (bit_vector)
        requires
            a0 < 256 && a1 < 256 && a2 < 256 && a3 < 256 && la < 256,
            b0 < 256 && b1 < 256 && b2 < 256 && b3 < 256 && lb < 256,
            a0 | (a1 << 8u64) | (a2 << 16u64) | (a3 << 24u64) | (la << 32u64) == b0 | (b1 << 8u64)
                | (b2 << 16u64) | (b3 << 24u64) | (lb << 32u64),
    ;
}

proof fn lemma_pack_injective(k1: Seq<u8>, k2: Seq<u8>)
    requires
        k1.len() <= 4,
        k2.len() <= 4,
        pack(k1) == pack(k2),
    ensures
        k1 == k2,
{
    lemma_pack_fields(
        byte_or_zero(k1, 0), byte_or_zero(k1, 1), byte_or_zero(k1, 2), byte_or_zero(k1, 3), k1.len() as u64,
        byte_or_zero(k2, 0), byte_or_zero(k2, 1), byte_or_zero(k2, 2), byte_or_zero(k2, 3), k2.len() as u64,
    );
    assert forall|i: int| 0 <= i < k1.len() implies k1[i] == k2[i] by {
        assert(byte_or_zero(k1, i) == byte_or_zero(k2, i));
    }
    assert(k1 =~= k2);
}

fn pack_key(k: &Vec<u8>) -> (r: u64)
    requires
        k@.len() <= 4,
    ensures
        r == pack(k@),
{
    let n = k.len();
    let b0: u64 = if n > 0 { k[0] as u64 } else { 0 };
    let b1: u64 = if n > 1 { k[1] as u64 } else { 0 };
    let b2: u64 = if n > 2 { k[2] as u64 } else { 0 };
    let b3: u64 = if n > 3 { k[3] as u64 } else { 0 };
    b0 | (b1 << 8u64) | (b2 << 16u64) | (b3 << 24u64) | ((n as u64) << 32u64)
}

/// Entries grouped under keys of at most four bytes, each key once, in the
/// order in which the keys first came.
pub struct Buckets {
    index: HashMap<u64, usize>,
    keys: Vec<Vec<u8>>,
    groups: Vec<Vec<Vocab>>,
}

impl View for Buckets {
    type V = Seq<(Seq<u8>, Seq<Vocab>)>;

    closed spec fn view(&self) -> Seq<(Seq<u8>, Seq<Vocab>)> {
        Seq::new(self.keys@.len(), |i: int| (self.keys@[i]@, self.groups@[i]@))
    }
}

/// The group filed under `k` in `b`, empty where `k` is no key of it.
pub open spec fn group_of(b: Seq<(Seq<u8>, Seq<Vocab>)>, k: Seq<u8>) -> Seq<Vocab> {
    if exists|i: int| 0 <= i < b.len() && b[i].0 == k {
        b[choose|i: int| 0 <= i < b.len() && b[i].0 == k].1
    } else {
        Seq::empty()
    }
}

/// The keys of `b` are distinct.
pub open spec fn keys_distinct(b: Seq<(Seq<u8>, Seq<Vocab>)>) -> bool {
    forall|i: int, j: int| 0 <= i < b.len() && 0 <= j < b.len() && i != j ==> b[i].0 != b[j].0
}

impl Buckets {
    pub closed spec fn wf(&self) -> bool {
        &&& self.keys@.len() == self.groups@.len()
        &&& forall|i: int| 0 <= i < self.keys@.len() ==> #[trigger] self.keys@[i]@.len() <= 4
        &&& forall|i: int|
            0 <= i < self.keys@.len() ==> self.index@.contains_key(#[trigger] pack(self.keys@[i]@))
                && self.index@[pack(self.keys@[i]@)] == i
        &&& forall|h: u64|
            #[trigger] self.index@.contains_key(h) ==> self.index@[h] < self.keys@.len() && pack(
                self.keys@[self.index@[h] as int]@,
            ) == h
    }

    pub fn new() -> (r: Buckets)
        ensures
            r.wf(),
            r@ == Seq::<(Seq<u8>, Seq<Vocab>)>::empty(),
    {
        broadcast use vstd::std_specs::hash::group_hash_axioms;
        let r = Buckets { index: HashMap::new(), keys: Vec::new(), groups: Vec::new() };
        assert(r@ =~= Seq::<(Seq<u8>, Seq<Vocab>)>::empty());
        r
    }

    proof fn lemma_wf_distinct(&self)
        requires
            self.wf(),
        ensures
            keys_distinct(self@),
    {
        assert forall|i: int, j: int|
            0 <= i < self@.len() && 0 <= j < self@.len() && i != j implies self@[i].0 != self@[j].0 by {
            if self@[i].0 == self@[j].0 {
                assert(pack(self.keys@[i]@) == pack(self.keys@[j]@));
            }
        }
    }

    pub fn len(&self) -> (r: usize)
        ensures
            r == self@.len(),
    {
        self.keys.len()
    }

    /// The group at position `i`.
    pub fn group(&self, i: usize) -> (r: &Vec<Vocab>)
        requires
            self.wf(),
            i < self@.len(),
        ensures
            r@ == self@[i as int].1,
    {
        &self.groups[i]
    }

    /// The position of `key`, if it is a key of the table.
    pub fn find(&self, key: &Vec<u8>) -> (r: Option<usize>)
        requires
            self.wf(),
        ensures
            match r {
                Some(i) => i < self@.len() && self@[i as int].0 == key@,
                None => forall|i: int| 0 <= i < self@.len() ==> self@[i].0 != key@,
            },
    {
        broadcast use vstd::std_specs::hash::group_hash_axioms;
        if key.len() > MAX_KEY_LEN {
            proof {
                assert forall|i: int| 0 <= i < self@.len() implies self@[i].0 != key@ by {
                    assert(self.keys@[i]@.len() <= 4);
                }
            }
            return None;
        }
        let h = pack_key(key);
        match self.index.get(&h) {
            Some(i) => {
                let i = *i;
                proof {
                    lemma_pack_injective(self.keys@[i as int]@, key@);
                }
                Some(i)
            },
            None => {
                proof {
                    assert forall|i: int| 0 <= i < self@.len() implies self@[i].0 != key@ by {
                        assert(self.index@.contains_key(pack(self.keys@[i]@)));
                    }
                }
                None
            },
        }
    }

    /// Appends `v` to the group of `key`, opening the group where `key` is new.
    pub fn push(&mut self, key: Vec<u8>, v: Vocab)
        requires
            old(self).wf(),
            key@.len() <= 4,
        ensures
            final(self).wf(),
            keys_distinct(final(self)@),
            forall|k: Seq<u8>|
                #[trigger] group_of(final(self)@, k) == if k == key@ {
                    group_of(old(self)@, k).push(v)
                } else {
                    group_of(old(self)@, k)
                },
            forall|k: Seq<u8>| #[trigger] has_key(final(self)@, k) == (has_key(old(self)@, k) || k == key@),
    {
        broadcast use vstd::std_specs::hash::group_hash_axioms;
        proof {
            self.lemma_wf_distinct();
        }
        match self.find(&key) {
            Some(i) => {
                self.groups[i].push(v);
                proof {
                    let b = old(self)@;
                    assert(self@ =~= b.update(i as int, (key@, b[i as int].1.push(v))));
                    lemma_update_effect(b, i as int, b[i as int].1.push(v));
                }
            },
            None => {
                let h = pack_key(&key);
                let n = self.keys.len();
                self.index.insert(h, n);
                self.keys.push(key);
                let mut g: Vec<Vocab> = Vec::new();
                g.push(v);
                self.groups.push(g);
                proof {
                    assert forall|h2: u64| #[trigger] self.index@.contains_key(h2) implies self.index@[h2]
                        < self.keys@.len() && pack(self.keys@[self.index@[h2] as int]@) == h2 by {
                        if h2 != h {
                            assert(old(self).index@.contains_key(h2));
                        }
                    }
                    assert forall|j: int| 0 <= j < self.keys@.len() implies self.index@.contains_key(
                        #[trigger] pack(self.keys@[j]@),
                    ) && self.index@[pack(self.keys@[j]@)] == j by {
                        if j == n {
                            assert(self.keys@[j]@ == key@);
                        } else {
                            assert(self.keys@[j] == old(self).keys@[j]);
                            assert(old(self).index@.contains_key(pack(old(self).keys@[j]@)));
                            if pack(self.keys@[j]@) == h {
                                lemma_pack_injective(self.keys@[j]@, key@);
                                assert(old(self)@[j].0 == old(self).keys@[j]@);
                            }
                        }
                    }
                    assert(g@ =~= seq![v]);
                    assert(self@ =~= old(self)@.push((key@, seq![v])));
                    lemma_push_effect(old(self)@, key@, seq![v]);
                }
            },
        }
    }
}


/// `k` is a key of `b`.
pub open spec fn has_key(b: Seq<(Seq<u8>, Seq<Vocab>)>, k: Seq<u8>) -> bool {
    exists|i: int| 0 <= i < b.len() && b[i].0 == k
}

proof fn lemma_group_at(b: Seq<(Seq<u8>, Seq<Vocab>)>, i: int)
    requires
        keys_distinct(b),
        0 <= i < b.len(),
    ensures
        group_of(b, b[i].0) == b[i].1,
        has_key(b, b[i].0),
{
    assert(has_key(b, b[i].0));
}

proof fn lemma_update_effect(b: Seq<(Seq<u8>, Seq<Vocab>)>, i: int, g: Seq<Vocab>)
    requires
        keys_distinct(b),
        0 <= i < b.len(),
    ensures
        keys_distinct(b.update(i, (b[i].0, g))),
        forall|k: Seq<u8>|
            #[trigger] group_of(b.update(i, (b[i].0, g)), k) == if k == b[i].0 {
                g
            } else {
                group_of(b, k)
            },
        forall|k: Seq<u8>| #[trigger] has_key(b.update(i, (b[i].0, g)), k) == has_key(b, k),
{
    let b2 = b.update(i, (b[i].0, g));
    assert forall|k: Seq<u8>| #[trigger] has_key(b2, k) == has_key(b, k) by {
        if has_key(b, k) {
            let j = choose|j: int| 0 <= j < b.len() && b[j].0 == k;
            assert(b2[j].0 == k);
        }
        if has_key(b2, k) {
            let j = choose|j: int| 0 <= j < b2.len() && b2[j].0 == k;
            assert(b[j].0 == k);
        }
    }
    assert(keys_distinct(b2));
    assert forall|k: Seq<u8>| #[trigger] group_of(b2, k) == if k == b[i].0 {
        g
    } else {
        group_of(b, k)
    } by {
        if has_key(b, k) {
            let j = choose|j: int| 0 <= j < b.len() && b[j].0 == k;
            lemma_group_at(b, j);
            lemma_group_at(b2, j);
        }
    }
}

proof fn lemma_push_effect(b: Seq<(Seq<u8>, Seq<Vocab>)>, k0: Seq<u8>, g: Seq<Vocab>)
    requires
        keys_distinct(b),
        !has_key(b, k0),
    ensures
        keys_distinct(b.push((k0, g))),
        forall|k: Seq<u8>|
            #[trigger] group_of(b.push((k0, g)), k) == if k == k0 {
                g
            } else {
                group_of(b, k)
            },
        forall|k: Seq<u8>| #[trigger] has_key(b.push((k0, g)), k) == (has_key(b, k) || k == k0),
{
    let b2 = b.push((k0, g));
    assert forall|k: Seq<u8>| #[trigger] has_key(b2, k) == (has_key(b, k) || k == k0) by {
        if has_key(b, k) {
            let j = choose|j: int| 0 <= j < b.len() && b[j].0 == k;
            assert(b2[j].0 == k);
        }
        if k == k0 {
            assert(b2[b.len() as int].0 == k);
        }
        if has_key(b2, k) {
            let j = choose|j: int| 0 <= j < b2.len() && b2[j].0 == k;
            if j < b.len() {
                assert(b[j].0 == k);
            }
        }
    }
    assert(keys_distinct(b2));
    assert forall|k: Seq<u8>| #[trigger] group_of(b2, k) == if k == k0 {
        g
    } else {
        group_of(b, k)
    } by {
        if k == k0 {
            lemma_group_at(b2, b.len() as int);
        } else if has_key(b, k) {
            let j = choose|j: int| 0 <= j < b.len() && b[j].0 == k;
            lemma_group_at(b, j);
            lemma_group_at(b2, j);
        } else {
            assert(!has_key(b2, k));
        }
    }
}


impl Buckets {
    /// Orders every group by descending weight.
    pub fn sort_groups(&mut self)
        requires
            old(self).wf(),
        ensures
            final(self).wf(),
            keys_distinct(final(self)@),
            forall|k: Seq<u8>| #[trigger] group_of(final(self)@, k) == sort_desc(group_of(old(self)@, k)),
            forall|k: Seq<u8>| #[trigger] has_key(final(self)@, k) == has_key(old(self)@, k),
    {
        proof {
            self.lemma_wf_distinct();
        }
        let n = self.groups.len();
        let mut i: usize = 0;
        while i < n
            invariant
                n == self.groups@.len(),
                i <= n,
                self.wf(),
                self.keys@ == old(self).keys@,
                self.index@ == old(self).index@,
                forall|j: int| 0 <= j < i ==> #[trigger] self.groups@[j]@ == sort_desc(old(self).groups@[j]@),
                forall|j: int| i <= j < n ==> #[trigger] self.groups@[j] == old(self).groups@[j],
            decreases n - i,
        {
            let g = sort_by_weight(&self.groups[i]);
            self.groups.set(i, g);
            i += 1;
        }
        proof {
            self.lemma_wf_distinct();
            let b = old(self)@;
            let b2 = self@;
            assert forall|j: int| 0 <= j < b.len() implies #[trigger] b2[j] == (b[j].0, sort_desc(b[j].1)) by {
                assert(self.groups@[j]@ == sort_desc(old(self).groups@[j]@));
            }
            assert forall|k: Seq<u8>| #[trigger] has_key(b2, k) == has_key(b, k) by {
                if has_key(b, k) {
                    let j = choose|j: int| 0 <= j < b.len() && b[j].0 == k;
                    assert(b2[j].0 == k);
                }
                if has_key(b2, k) {
                    let j = choose|j: int| 0 <= j < b2.len() && b2[j].0 == k;
                    assert(b[j].0 == k);
                }
            }
            assert forall|k: Seq<u8>| #[trigger] group_of(b2, k) == sort_desc(group_of(b, k)) by {
                if has_key(b, k) {
                    let j = choose|j: int| 0 <= j < b.len() && b[j].0 == k;
                    lemma_group_at(b, j);
                    lemma_group_at(b2, j);
                } else {
                    assert(!has_key(b2, k));
                    assert(sort_desc(Seq::<Vocab>::empty()) == Seq::<Vocab>::empty());
                }
            }
        }
    }
}

/// The composite codes under which the common-code index files an entry: a
/// single character under its initial and final, and under its initial,
/// final and head; a two-character word under the first character's initial
/// and final followed by the second's final and initial; any other entry,
/// and one whose codes cannot be inferred, under none.
pub open spec fn composite_keys(v: Vocab, m: Map<u32, Code>) -> Seq<Seq<u8>> {
    match infer_spec(v.text@, m) {
        Some(c) => if c.len() == 1 {
            seq![seq![c[0].conso, c[0].vowel], seq![c[0].conso, c[0].vowel, c[0].head]]
        } else if c.len() == 2 {
            seq![seq![c[0].conso, c[0].vowel, c[1].vowel, c[1].conso]]
        } else {
            Seq::empty()
        },
        None => Seq::empty(),
    }
}

/// Whether an entry is filed under `k` in the common-code index.
pub open spec fn files_under(m: Map<u32, Code>, k: Seq<u8>) -> spec_fn(Vocab) -> bool {
    |v: Vocab| composite_keys(v, m).contains(k)
}

/// The common-code group of `k` over the entries `s`: the entries filed under
/// `k`, by descending weight.
pub open spec fn common_group(s: Seq<Vocab>, m: Map<u32, Code>, k: Seq<u8>) -> Seq<Vocab> {
    sort_desc(s.filter(files_under(m, k)))
}

proof fn lemma_filter_step(s: Seq<Vocab>, i: int, p: spec_fn(Vocab) -> bool)
    requires
        0 <= i < s.len(),
    ensures
        s.take(i + 1).filter(p) == if p(s[i]) {
            s.take(i).filter(p).push(s[i])
        } else {
            s.take(i).filter(p)
        },
{
    reveal(Seq::filter);
    assert(s.take(i + 1).drop_last() == s.take(i));
}

/// Files each entry of `s` under its composite codes.
fn file_common(b: &mut Buckets, s: &Vec<Vocab>, char_codes: &CharCodes, Ghost(pre): Ghost<Seq<Vocab>>)
    requires
        old(b).wf(),
        forall|k: Seq<u8>| #[trigger] group_of(old(b)@, k) == pre.filter(files_under(char_codes@, k)),
        forall|k: Seq<u8>| #[trigger] has_key(old(b)@, k) ==> pre.filter(files_under(char_codes@, k)).len() > 0,
    ensures
        final(b).wf(),
        forall|k: Seq<u8>|
            #[trigger] group_of(final(b)@, k) == (pre + s@).filter(files_under(char_codes@, k)),
        forall|k: Seq<u8>|
            #[trigger] has_key(final(b)@, k) ==> (pre + s@).filter(files_under(char_codes@, k)).len()
                > 0,
{
    let ghost m = char_codes@;
    let mut i: usize = 0;
    while i < s.len()
        invariant
            i <= s@.len(),
            b.wf(),
            m == char_codes@,
            forall|k: Seq<u8>|
                #[trigger] group_of(b@, k) == (pre + s@.take(i as int)).filter(files_under(m, k)),
            forall|k: Seq<u8>|
                #[trigger] has_key(b@, k) ==> (pre + s@.take(i as int)).filter(files_under(m, k)).len()
                    > 0,
        decreases s@.len() - i,
    {
        let v = &s[i];
        let ghost b0 = b@;
        let ghost all = pre + s@.take(i + 1);
        proof {
            assert(pre + s@.take(i as int) == all.take(pre.len() + i));
            assert(all[pre.len() + i] == s@[i as int]);
            assert forall|k: Seq<u8>| #[trigger] all.take(pre.len() + i + 1).filter(files_under(m, k)) == (
            if composite_keys(s@[i as int], m).contains(k) {
                all.take(pre.len() + i).filter(files_under(m, k)).push(s@[i as int])
            } else {
                all.take(pre.len() + i).filter(files_under(m, k))
            }) by {
                lemma_filter_step(all, pre.len() + i, files_under(m, k));
            }
            assert(all.take(pre.len() + i + 1) == all);
        }
        match Code::infer(v.text.as_str(), char_codes) {
            Some(codes) => {
                if codes.len() == 1 {
                    let a = codes[0];
                    let k1: Vec<u8> = vec![a.conso, a.vowel];
                    let k2: Vec<u8> = vec![a.conso, a.vowel, a.head];
                    proof {
                        assert(composite_keys(s@[i as int], m) == seq![k1@, k2@]);
                    }
                    b.push(k1, v.duplicate());
                    b.push(k2, v.duplicate());
                    proof {
                        assert forall|k: Seq<u8>| #[trigger] group_of(b@, k) == all.filter(files_under(m, k)) by {
                            assert(seq![k1@, k2@].contains(k) == (k == k1@ || k == k2@)) by {
                                if k == k2@ { assert(seq![k1@, k2@][1] == k); }
                            }
                            assert(k1@ != k2@) by { assert(k1@.len() != k2@.len()); }
                        }
                        assert forall|k: Seq<u8>| #[trigger] has_key(b@, k) implies all.filter(files_under(m, k)).len() > 0 by {
                            assert(seq![k1@, k2@][1] == k2@);
                            assert(seq![k1@, k2@][0] == k1@);
                        }
                    }
                } else if codes.len() == 2 {
                    let a = codes[0];
                    let c = codes[1];
                    let k1: Vec<u8> = vec![a.conso, a.vowel, c.vowel, c.conso];
                    proof {
                        assert(composite_keys(s@[i as int], m) == seq![k1@]);
                    }
                    b.push(k1, v.duplicate());
                    proof {
                        assert forall|k: Seq<u8>| #[trigger] group_of(b@, k) == all.filter(files_under(m, k)) by {
                            assert(seq![k1@].contains(k) == (k == k1@)) by {
                                if k == k1@ { assert(seq![k1@][0] == k); }
                            }
                        }
                        assert forall|k: Seq<u8>| #[trigger] has_key(b@, k) implies all.filter(files_under(m, k)).len() > 0 by {
                            assert(seq![k1@][0] == k1@);
                        }
                    }
                } else {
                    proof {
                        assert(composite_keys(s@[i as int], m) =~= Seq::<Seq<u8>>::empty());
                    }
                }
            },
            None => {
                proof {
                    assert(composite_keys(s@[i as int], m) =~= Seq::<Seq<u8>>::empty());
                }
            },
        }
        i += 1;
    }
    proof {
        assert(s@.take(s@.len() as int) == s@);
    }
}

/// Builds the common-code index over the character entries followed by the
/// word entries: every composite code that some entry is filed under, with
/// the entries filed under it by descending weight.
pub fn common_index(chars: &Vec<Vocab>, words: &Vec<Vocab>, char_codes: &CharCodes) -> (r: Buckets)
    ensures
        r.wf(),
        keys_distinct(r@),
        forall|k: Seq<u8>|
            #[trigger] group_of(r@, k) == common_group(chars@ + words@, char_codes@, k),
        forall|k: Seq<u8>|
            #[trigger] has_key(r@, k) == ((chars@ + words@).filter(files_under(char_codes@, k)).len()
                > 0),
{
    let mut b = Buckets::new();
    proof {
        assert forall|k: Seq<u8>| #[trigger] group_of(b@, k) == Seq::<Vocab>::empty().filter(files_under(char_codes@, k)) by {
            reveal(Seq::filter);
        }
    }
    file_common(&mut b, chars, char_codes, Ghost(Seq::empty()));
    assert(Seq::<Vocab>::empty() + chars@ == chars@);
    file_common(&mut b, words, char_codes, Ghost(chars@));
    let ghost b1 = b@;
    proof {
        b.lemma_wf_distinct();
        assert forall|k: Seq<u8>| #[trigger] has_key(b1, k) == ((chars@ + words@).filter(files_under(char_codes@, k)).len() > 0) by {
            if !has_key(b1, k) {
                assert(group_of(b1, k) == Seq::<Vocab>::empty());
            }
        }
    }
    b.sort_groups();
    b
}


/// The least weight at which a word of `n` characters gets an abbreviation;
/// `None` where no word of that length gets one.
pub open spec fn weight_floor(n: nat) -> Option<u32> {
    if n == 2 {
        Some(30000)
    } else if n == 3 {
        Some(500)
    } else if n == 4 {
        Some(200)
    } else {
        None
    }
}

/// The word is frequent enough for its length to get an abbreviation.
pub open spec fn eligible(v: Vocab) -> bool {
    match weight_floor(v.text@.len()) {
        Some(w) => v.weight >= w,
        None => false,
    }
}

/// The abbreviation a word is filed under: the initials of its characters,
/// where it passes the frequency gate and every character has a code.
pub open spec fn abbr_key(v: Vocab, m: Map<u32, Code>) -> Option<Seq<u8>> {
    if eligible(v) {
        abbr_spec(v.text@, m)
    } else {
        None
    }
}

/// Whether a word is filed under the abbreviation `k`.
pub open spec fn abbreviates(m: Map<u32, Code>, k: Seq<u8>) -> spec_fn(Vocab) -> bool {
    |v: Vocab| abbr_key(v, m) == Some(k)
}

/// The words filed under `k`, by descending weight.
pub open spec fn candidates(s: Seq<Vocab>, m: Map<u32, Code>, k: Seq<u8>) -> Seq<Vocab> {
    sort_desc(s.filter(abbreviates(m, k)))
}

/// The weight of the first entry of a group, which owns its code by frequency.
pub open spec fn incumbent(g: Seq<Vocab>) -> Option<u32> {
    if g.len() > 0 {
        Some(g[0].weight)
    } else {
        None
    }
}

/// `v` with the largest weight, so that it sorts first.
pub open spec fn promoted(v: Vocab) -> Vocab {
    Vocab { text: v.text, spell: v.spell, weight: u32::MAX, ord: v.ord }
}

/// The weight from which a common-code incumbent keeps a two-symbol code.
pub const INCUMBENT_FLOOR: u32 = 50000;

/// What stays of the sorted group `g` of the abbreviation `k`. A key of two
/// symbols keeps only its first word; where the common-code index holds `k`
/// with an incumbent of weight at least 50000 that word goes too, and where
/// the incumbent is lighter the word's weight becomes the largest. Longer
/// keys keep their whole group.
pub open spec fn resolve(k: Seq<u8>, g: Seq<Vocab>, inc: Option<u32>) -> Seq<Vocab> {
    if k.len() == 2 && g.len() > 0 {
        match inc {
            Some(w) => if w >= INCUMBENT_FLOOR {
                Seq::empty()
            } else {
                seq![promoted(g[0])]
            },
            None => seq![g[0]],
        }
    } else {
        g
    }
}

/// The least weight at which a word of `n` characters gets an abbreviation.
pub fn min_weight(n: usize) -> (r: Option<u32>)
    ensures
        r == weight_floor(n as nat),
{
    if n == 2 {
        Some(30000)
    } else if n == 3 {
        Some(500)
    } else if n == 4 {
        Some(200)
    } else {
        None
    }
}

/// Applies the two-symbol collision rule to the group `g` of the key `k`,
/// ordered by descending weight, given the weight of the common-code
/// incumbent of `k`, if any.
pub fn resolve_collision(k: &Vec<u8>, g: Vec<Vocab>, inc: Option<u32>) -> (r: Vec<Vocab>)
    ensures
        r@ == resolve(k@, g@, inc),
{
    if k.len() == 2 && g.len() > 0 {
        match inc {
            Some(w) => {
                if w >= INCUMBENT_FLOOR {
                    Vec::new()
                } else {
                    let top = &g[0];
                    let p = Vocab {
                        text: top.text.clone(),
                        spell: top.spell.duplicate(),
                        weight: u32::MAX,
                        ord: top.ord,
                    };
                    let mut r: Vec<Vocab> = Vec::new();
                    r.push(p);
                    assert(r@ =~= seq![promoted(g@[0])]);
                    r
                }
            },
            None => {
                let mut r: Vec<Vocab> = Vec::new();
                r.push(g[0].duplicate());
                assert(r@ =~= seq![g@[0]]);
                r
            },
        }
    } else {
        g
    }
}

/// Files each word that passes the frequency gate under its abbreviation.
fn file_abbreviations(words: &Vec<Vocab>, char_codes: &CharCodes) -> (b: Buckets)
    ensures
        b.wf(),
        forall|k: Seq<u8>| #[trigger] group_of(b@, k) == words@.filter(abbreviates(char_codes@, k)),
        forall|k: Seq<u8>|
            #[trigger] has_key(b@, k) == (words@.filter(abbreviates(char_codes@, k)).len() > 0),
{
    let ghost m = char_codes@;
    let mut b = Buckets::new();
    proof {
        assert forall|k: Seq<u8>| #[trigger] group_of(b@, k) == words@.take(0).filter(abbreviates(m, k)) by {
            reveal(Seq::filter);
        }
    }
    let mut i: usize = 0;
    while i < words.len()
        invariant
            i <= words@.len(),
            b.wf(),
            m == char_codes@,
            forall|k: Seq<u8>| #[trigger] group_of(b@, k) == words@.take(i as int).filter(abbreviates(m, k)),
            forall|k: Seq<u8>|
                #[trigger] has_key(b@, k) ==> words@.take(i as int).filter(abbreviates(m, k)).len() > 0,
        decreases words@.len() - i,
    {
        let v = &words[i];
        proof {
            assert forall|k: Seq<u8>| #[trigger] words@.take(i + 1).filter(abbreviates(m, k)) == (
            if abbr_key(words@[i as int], m) == Some(k) {
                words@.take(i as int).filter(abbreviates(m, k)).push(words@[i as int])
            } else {
                words@.take(i as int).filter(abbreviates(m, k))
            }) by {
                lemma_filter_step(words@, i as int, abbreviates(m, k));
            }
        }
        let n = v.text.as_str().unicode_len();
        let gate = min_weight(n);
        let passes = match gate {
            Some(w) => v.weight >= w,
            None => false,
        };
        if passes {
            match Code::infer_abbr(v.text.as_str(), char_codes) {
                Some(k) => {
                    let ghost kv = k@;
                    b.push(k, v.duplicate());
                    proof {
                        assert forall|k2: Seq<u8>| #[trigger] has_key(b@, k2) implies words@.take(i + 1).filter(abbreviates(m, k2)).len() > 0 by {
                            if k2 == kv {
                                assert(words@.take(i + 1).filter(abbreviates(m, k2)).last() == words@[i as int]);
                            }
                        }
                    }
                },
                None => {},
            }
        }
        i += 1;
    }
    proof {
        assert(words@.take(words@.len() as int) == words@);
        assert forall|k: Seq<u8>| #[trigger] has_key(b@, k) == (words@.filter(abbreviates(m, k)).len() > 0) by {
            if !has_key(b@, k) {
                b.lemma_wf_distinct();
                assert(group_of(b@, k) == Seq::<Vocab>::empty());
            }
        }
    }
    b
}

/// `a` comes before `b` in byte-wise lexicographic order.
pub open spec fn lex_lt(a: Seq<u8>, b: Seq<u8>) -> bool
    decreases a.len(),
{
    if a.len() == 0 {
        b.len() > 0
    } else if b.len() == 0 {
        false
    } else if a[0] != b[0] {
        a[0] < b[0]
    } else {
        lex_lt(a.drop_first(), b.drop_first())
    }
}

proof fn lemma_lex_total(a: Seq<u8>, b: Seq<u8>)
    ensures
        !lex_lt(a, a),
        !(lex_lt(a, b) && lex_lt(b, a)),
        a != b ==> lex_lt(a, b) || lex_lt(b, a),
    decreases a.len(),
{
    if a.len() > 0 {
        lemma_lex_total(a.drop_first(), a.drop_first());
    }
    if a.len() > 0 && b.len() > 0 {
        lemma_lex_total(a.drop_first(), b.drop_first());
        if a != b && a[0] == b[0] {
            assert(a == seq![a[0]] + a.drop_first());
            assert(b == seq![b[0]] + b.drop_first());
        }
    } else if a.len() > 0 {
    } else if b.len() == 0 {
        assert(a =~= b);
    }
}

proof fn lemma_lex_trans(a: Seq<u8>, b: Seq<u8>, c: Seq<u8>)
    requires
        lex_lt(a, b),
        lex_lt(b, c),
    ensures
        lex_lt(a, c),
    decreases a.len(),
{
    if a.len() > 0 && b.len() > 0 && c.len() > 0 && a[0] == b[0] && b[0] == c[0] {
        lemma_lex_trans(a.drop_first(), b.drop_first(), c.drop_first());
    }
}

/// Compares two keys in byte-wise lexicographic order.
pub fn key_lt(a: &[u8], b: &[u8]) -> (r: bool)
    ensures
        r == lex_lt(a@, b@),
{
    let mut i: usize = 0;
    assert(a@.skip(0) == a@ && b@.skip(0) == b@);
    while i < a.len() && i < b.len() && a[i] == b[i]
        invariant
            i <= a@.len(),
            i <= b@.len(),
            lex_lt(a@, b@) == lex_lt(a@.skip(i as int), b@.skip(i as int)),
        decreases a@.len() - i,
    {
        proof {
            assert(a@.skip(i as int).drop_first() == a@.skip(i + 1));
            assert(b@.skip(i as int).drop_first() == b@.skip(i + 1));
        }
        i += 1;
    }
    if i == a.len() {
        i < b.len()
    } else if i == b.len() {
        false
    } else {
        a[i] < b[i]
    }
}

/// The keys and groups of an abbreviation table.
pub open spec fn table_view(t: Seq<(Vec<u8>, Vec<Vocab>)>) -> Seq<(Seq<u8>, Seq<Vocab>)> {
    Seq::new(t.len(), |i: int| (t[i].0@, t[i].1@))
}

/// The keys of `b` stand in strictly ascending order.
pub open spec fn keys_ascending(b: Seq<(Seq<u8>, Seq<Vocab>)>) -> bool {
    forall|i: int, j: int| 0 <= i < j < b.len() ==> lex_lt(#[trigger] b[i].0, #[trigger] b[j].0)
}

proof fn lemma_ascending_distinct(b: Seq<(Seq<u8>, Seq<Vocab>)>)
    requires
        keys_ascending(b),
    ensures
        keys_distinct(b),
{
    assert forall|i: int, j: int| 0 <= i < b.len() && 0 <= j < b.len() && i != j implies b[i].0 != b[j].0 by {
        lemma_lex_total(b[i].0, b[j].0);
    }
}

proof fn lemma_insert_effect(b: Seq<(Seq<u8>, Seq<Vocab>)>, j: int, k0: Seq<u8>, g: Seq<Vocab>)
    requires
        keys_distinct(b),
        !has_key(b, k0),
        0 <= j <= b.len(),
    ensures
        keys_distinct(b.insert(j, (k0, g))),
        forall|k: Seq<u8>|
            #[trigger] group_of(b.insert(j, (k0, g)), k) == if k == k0 {
                g
            } else {
                group_of(b, k)
            },
        forall|k: Seq<u8>| #[trigger] has_key(b.insert(j, (k0, g)), k) == (has_key(b, k) || k == k0),
{
    let b2 = b.insert(j, (k0, g));
    assert forall|x: int, y: int| 0 <= x < b2.len() && 0 <= y < b2.len() && x != y implies b2[x].0 != b2[y].0 by {
        if x != j && y != j {
            let x0 = if x < j { x } else { x - 1 };
            let y0 = if y < j { y } else { y - 1 };
            assert(b2[x] == b[x0] && b2[y] == b[y0]);
        } else if x == j {
            let y0 = if y < j { y } else { y - 1 };
            assert(b2[y] == b[y0]);
        } else {
            let x0 = if x < j { x } else { x - 1 };
            assert(b2[x] == b[x0]);
        }
    }
    assert forall|k: Seq<u8>| #[trigger] has_key(b2, k) == (has_key(b, k) || k == k0) by {
        if has_key(b, k) {
            let t = choose|t: int| 0 <= t < b.len() && b[t].0 == k;
            let t2 = if t < j { t } else { t + 1 };
            assert(b2[t2].0 == k);
        }
        if k == k0 {
            assert(b2[j].0 == k);
        }
        if has_key(b2, k) && k != k0 {
            let t = choose|t: int| 0 <= t < b2.len() && b2[t].0 == k;
            let t0 = if t < j { t } else { t - 1 };
            assert(b[t0].0 == k);
        }
    }
    assert forall|k: Seq<u8>| #[trigger] group_of(b2, k) == if k == k0 {
        g
    } else {
        group_of(b, k)
    } by {
        if k == k0 {
            lemma_group_at(b2, j);
        } else if has_key(b, k) {
            let t = choose|t: int| 0 <= t < b.len() && b[t].0 == k;
            let t2 = if t < j { t } else { t + 1 };
            lemma_group_at(b, t);
            assert(b2[t2] == b[t]);
            lemma_group_at(b2, t2);
        } else {
            assert(!has_key(b2, k));
        }
    }
}

/// Orders a table with distinct keys by ascending key.
fn sort_by_key(t: Vec<(Vec<u8>, Vec<Vocab>)>) -> (r: Vec<(Vec<u8>, Vec<Vocab>)>)
    requires
        keys_distinct(table_view(t@)),
    ensures
        keys_ascending(table_view(r@)),
        keys_distinct(table_view(r@)),
        forall|k: Seq<u8>| #[trigger] group_of(table_view(r@), k) == group_of(table_view(t@), k),
        forall|k: Seq<u8>| #[trigger] has_key(table_view(r@), k) == has_key(table_view(t@), k),
{
    let ghost tv = table_view(t@);
    let mut src = t;
    let mut out: Vec<(Vec<u8>, Vec<Vocab>)> = Vec::new();
    proof {
        assert(table_view(src@) =~= tv.take(tv.len() as int));
        assert forall|k: Seq<u8>| #[trigger] group_of(table_view(out@), k) == group_of(tv.skip(tv.len() as int), k) by {
            assert(table_view(out@) =~= tv.skip(tv.len() as int));
        }
        assert forall|k: Seq<u8>| #[trigger] has_key(table_view(out@), k) == has_key(tv.skip(tv.len() as int), k) by {
            assert(table_view(out@) =~= tv.skip(tv.len() as int));
        }
    }
    while src.len() > 0
        invariant
            src@.len() <= tv.len(),
            table_view(src@) == tv.take(src@.len() as int),
            keys_distinct(tv),
            keys_ascending(table_view(out@)),
            keys_distinct(table_view(out@)),
            forall|k: Seq<u8>|
                #[trigger] group_of(table_view(out@), k) == group_of(tv.skip(src@.len() as int), k),
            forall|k: Seq<u8>|
                #[trigger] has_key(table_view(out@), k) == has_key(tv.skip(src@.len() as int), k),
        decreases src@.len(),
    {
        let ghost n = src@.len() - 1;
        let ghost ov = table_view(out@);
        let ghost sv = table_view(src@);
        let item = src.pop().unwrap();
        let ghost kv = item.0@;
        let ghost gv = item.1@;
        proof {
            assert(sv[n] == (kv, gv));
            assert(tv[n] == (kv, gv));
            assert(table_view(src@) =~= tv.take(n));
            assert(tv.skip(n) =~= tv.skip(n + 1).insert(0, (kv, gv)));
            let rest = tv.skip(n + 1);
            assert(keys_distinct(rest)) by {
                assert forall|x: int, y: int| 0 <= x < rest.len() && 0 <= y < rest.len() && x != y
                    implies #[trigger] rest[x].0 != #[trigger] rest[y].0 by {
                    assert(rest[x] == tv[x + n + 1]);
                    assert(rest[y] == tv[y + n + 1]);
                }
            }
            assert(!has_key(rest, kv)) by {
                if has_key(rest, kv) {
                    let x = choose|x: int| 0 <= x < rest.len() && #[trigger] rest[x].0 == kv;
                    assert(rest[x] == tv[x + n + 1]);
                }
            }
            lemma_insert_effect(tv.skip(n + 1), 0, kv, gv);
            assert(!has_key(ov, kv));
        }
        let mut j: usize = 0;
        while j < out.len() && !key_lt(item.0.as_slice(), out[j].0.as_slice())
            invariant
                j <= out@.len(),
                ov == table_view(out@),
                kv == item.0@,
                forall|x: int| 0 <= x < j ==> lex_lt(#[trigger] out@[x].0@, kv),
                !has_key(ov, kv),
            decreases out@.len() - j,
        {
            proof {
                lemma_lex_total(out@[j as int].0@, kv);
                assert(ov[j as int].0 == out@[j as int].0@);
            }
            j += 1;
        }
        out.insert(j, item);
        proof {
            assert(table_view(out@) =~= ov.insert(j as int, (kv, gv)));
            lemma_insert_effect(ov, j as int, kv, gv);
            let nv = table_view(out@);
            assert forall|x: int, y: int| 0 <= x < y < nv.len() implies lex_lt(#[trigger] nv[x].0, #[trigger] nv[y].0) by {
                if y < j {
                    assert(nv[x] == ov[x] && nv[y] == ov[y]);
                } else if y == j {
                    assert(nv[x] == ov[x]);
                    assert(ov[x].0 == out@[x].0@);
                } else if x > j {
                    assert(nv[x] == ov[x - 1] && nv[y] == ov[y - 1]);
                } else if x == j {
                    assert(nv[y] == ov[y - 1]);
                    if y - 1 > j {
                        lemma_lex_trans(kv, ov[j as int].0, ov[y - 1].0);
                    }
                } else {
                    assert(nv[x] == ov[x] && nv[y] == ov[y - 1]);
                }
            }
        }
    }
    proof {
        assert(tv.skip(0) == tv);
    }
    out
}


proof fn lemma_skip_step(tv: Seq<(Seq<u8>, Seq<Vocab>)>, n: int)
    requires
        keys_distinct(tv),
        0 <= n < tv.len(),
    ensures
        keys_distinct(tv.skip(n + 1)),
        !has_key(tv.skip(n + 1), tv[n].0),
        tv.skip(n) == tv.skip(n + 1).insert(0, tv[n]),
{
    let rest = tv.skip(n + 1);
    assert forall|x: int, y: int| 0 <= x < rest.len() && 0 <= y < rest.len() && x != y
        implies #[trigger] rest[x].0 != #[trigger] rest[y].0 by {
        assert(rest[x] == tv[x + n + 1]);
        assert(rest[y] == tv[y + n + 1]);
    }
    if has_key(rest, tv[n].0) {
        let x = choose|x: int| 0 <= x < rest.len() && #[trigger] rest[x].0 == tv[n].0;
        assert(rest[x] == tv[x + n + 1]);
    }
    assert(tv.skip(n) =~= rest.insert(0, tv[n]));
}

/// The weight of the incumbent of `k` in the common-code index `c`.
fn incumbent_of(c: &Buckets, k: &Vec<u8>) -> (r: Option<u32>)
    requires
        c.wf(),
    ensures
        r == incumbent(group_of(c@, k@)),
{
    proof {
        c.lemma_wf_distinct();
    }
    match c.find(k) {
        Some(i) => {
            proof {
                lemma_group_at(c@, i as int);
            }
            if c.groups[i].len() > 0 {
                Some(c.groups[i][0].weight)
            } else {
                None
            }
        },
        None => {
            proof {
                assert(!has_key(c@, k@));
            }
            None
        },
    }
}

/// Builds the abbreviation table from the character entries and the word
/// entries, in dictionary order.
///
/// Each word that passes the frequency gate and whose characters all have a
/// code is filed under the initials of its characters; each group is ordered
/// by descending weight, ties in dictionary order, and a two-symbol key then
/// goes through the collision rule against the common-code index built over
/// the characters followed by the words. Keys of three or four symbols get no
/// check against longer codes that they may shadow; that gap is left open.
/// The table lists every key that some word was filed under, in ascending
/// byte order; a key whose word was discarded keeps an empty group.
pub fn build_abbreviations(chars: &Vec<Vocab>, words: &Vec<Vocab>) -> (r: Vec<(Vec<u8>, Vec<Vocab>)>)
    ensures
        keys_ascending(table_view(r@)),
        forall|k: Seq<u8>|
            #[trigger] has_key(table_view(r@), k) == (words@.filter(abbreviates(table_of(chars@), k)).len() > 0),
        forall|k: Seq<u8>|
            #[trigger] group_of(table_view(r@), k) == resolve(
                k,
                candidates(words@, table_of(chars@), k),
                incumbent(common_group(chars@ + words@, table_of(chars@), k)),
            ),
        forall|i: int| 0 <= i < r@.len() && (#[trigger] r@[i]).0@.len() == 2 ==> r@[i].1@.len() <= 1,
{
    let codes = CharCodes::from_entries(chars);
    let ghost m = codes@;
    let common = common_index(chars, words, &codes);
    let mut b = file_abbreviations(words, &codes);
    b.sort_groups();
    let ghost bv = b@;
    proof {
        b.lemma_wf_distinct();
    }
    let Buckets { index: _, keys: mut keys, groups: mut groups } = b;
    let mut t: Vec<(Vec<u8>, Vec<Vocab>)> = Vec::new();
    proof {
        assert(bv.skip(keys@.len() as int) =~= Seq::<(Seq<u8>, Seq<Vocab>)>::empty());
        assert(table_view(t@) =~= Seq::<(Seq<u8>, Seq<Vocab>)>::empty());
    }
    while keys.len() > 0
        invariant
            keys@.len() == groups@.len(),
            keys@.len() <= bv.len(),
            forall|x: int| 0 <= x < keys@.len() ==> bv[x] == (#[trigger] keys@[x]@, groups@[x]@),
            keys_distinct(bv),
            keys_distinct(table_view(t@)),
            common.wf(),
            forall|k: Seq<u8>|
                #[trigger] has_key(table_view(t@), k) == has_key(bv.skip(keys@.len() as int), k),
            forall|k: Seq<u8>|
                #[trigger] group_of(table_view(t@), k) == if has_key(bv.skip(keys@.len() as int), k) {
                    resolve(k, group_of(bv, k), incumbent(group_of(common@, k)))
                } else {
                    Seq::empty()
                },
        decreases keys@.len(),
    {
        let ghost n = keys@.len() - 1;
        let ghost tv0 = table_view(t@);
        let k = keys.pop().unwrap();
        let g = groups.pop().unwrap();
        proof {
            assert(bv[n] == (k@, g@));
            lemma_skip_step(bv, n);
            lemma_insert_effect(bv.skip(n + 1), 0, k@, g@);
            lemma_group_at(bv, n);
            assert(!has_key(tv0, k@));
        }
        let inc = incumbent_of(&common, &k);
        let res = resolve_collision(&k, g, inc);
        let ghost kv = k@;
        let ghost rv = res@;
        t.push((k, res));
        proof {
            assert(table_view(t@) =~= tv0.push((kv, rv)));
            lemma_push_effect(tv0, kv, rv);
        }
    }
    let ghost tv = table_view(t@);
    let r = sort_by_key(t);
    proof {
        assert(bv.skip(0) == bv);
        let rv = table_view(r@);
        assert forall|k: Seq<u8>| #[trigger] group_of(rv, k) == resolve(
            k,
            candidates(words@, m, k),
            incumbent(common_group(chars@ + words@, m, k)),
        ) by {
            if !has_key(bv, k) {
                assert(words@.filter(abbreviates(m, k)) =~= Seq::<Vocab>::empty());
                assert(sort_desc(Seq::<Vocab>::empty()) == Seq::<Vocab>::empty());
            }
        }
        assert forall|i: int| 0 <= i < r@.len() && (#[trigger] r@[i]).0@.len() == 2 implies r@[i].1@.len() <= 1 by {
            lemma_ascending_distinct(rv);
            assert(rv[i] == (r@[i].0@, r@[i].1@));
            lemma_group_at(rv, i);
        }
    }
    r
}


/// The collision rule for a two-symbol key: against an incumbent of weight
/// 50000 or more every candidate is discarded, whatever its own weight;
/// against a lighter incumbent the first candidate alone stays, with the
/// largest weight; with no incumbent the first candidate stays as it is.
pub proof fn lemma_collision_rule(k: Seq<u8>, g: Seq<Vocab>, w: u32)
    requires
        k.len() == 2,
        g.len() > 0,
    ensures
        w >= 50000 ==> resolve(k, g, Some(w)) == Seq::<Vocab>::empty(),
        w < 50000 ==> resolve(k, g, Some(w)).len() == 1 && resolve(k, g, Some(w))[0].weight == u32::MAX
            && resolve(k, g, Some(w))[0].text == g[0].text,
        resolve(k, g, None) == seq![g[0]],
{
}


/// Builds the abbreviation table of the word dictionary against the
/// character dictionary, as `build_abbreviations` says.
pub fn gen(char_dict: &Dict, word_dict: &Dict) -> (r: Vec<(Vec<u8>, Vec<Vocab>)>)
    ensures
        keys_ascending(table_view(r@)),
        forall|k: Seq<u8>|
            #[trigger] has_key(table_view(r@), k) == (word_dict.vocabs@.filter(
                abbreviates(table_of(char_dict.vocabs@), k),
            ).len() > 0),
        forall|k: Seq<u8>|
            #[trigger] group_of(table_view(r@), k) == resolve(
                k,
                candidates(word_dict.vocabs@, table_of(char_dict.vocabs@), k),
                incumbent(
                    common_group(char_dict.vocabs@ + word_dict.vocabs@, table_of(char_dict.vocabs@), k),
                ),
            ),
        forall|i: int| 0 <= i < r@.len() && (#[trigger] r@[i]).0@.len() == 2 ==> r@[i].1@.len() <= 1,
{
    build_abbreviations(&char_dict.vocabs, &word_dict.vocabs)
}

/// The lines of a group filed under the code `code`.
pub open spec fn group_lines(code: Seq<char>, g: Seq<Vocab>) -> Seq<char>
    decreases g.len(),
{
    if g.len() == 0 {
        Seq::empty()
    } else {
        group_lines(code, g.drop_last()) + line_text(g.last().text@, code, Some(g.last().weight))
    }
}

/// The lines of an abbreviation table: for each key in turn, one line for
/// each entry of its group, in order.
pub open spec fn table_lines(t: Seq<(Seq<u8>, Seq<Vocab>)>) -> Seq<char>
    decreases t.len(),
{
    if t.len() == 0 {
        Seq::empty()
    } else {
        table_lines(t.drop_last()) + group_lines(decode_utf8(t.last().0), t.last().1)
    }
}

/// Every key of the table is valid UTF-8.
pub open spec fn keys_are_text(t: Seq<(Seq<u8>, Seq<Vocab>)>) -> bool {
    forall|i: int| 0 <= i < t.len() ==> valid_utf8(#[trigger] t[i].0)
}

/// The abbreviation table as dictionary text: the header on a line of its
/// own, then the lines of the table.
pub fn render_abbreviations(header: &str, table: &Vec<(Vec<u8>, Vec<Vocab>)>) -> (r: String)
    requires
        keys_are_text(table_view(table@)),
    ensures
        r@ == header@ + seq!['\n'] + table_lines(table_view(table@)),
{
    let ghost tv = table_view(table@);
    let mut out = String::new();
    out.append(header);
    out.append("\n");
    proof {
        reveal_strlit("\n");
        assert(tv.take(0) =~= Seq::<(Seq<u8>, Seq<Vocab>)>::empty());
    }
    let mut i: usize = 0;
    while i < table.len()
        invariant
            tv == table_view(table@),
            i <= tv.len(),
            keys_are_text(tv),
            out@ == header@ + seq!['\n'] + table_lines(tv.take(i as int)),
        decreases tv.len() - i,
    {
        proof {
            assert(tv[i as int].0 == table@[i as int].0@);
        }
        let code = text(&table[i].0);
        let g = &table[i].1;
        proof {
            encode_utf8_decode_utf8(code@);
            assert(tv[i as int] == (table@[i as int].0@, g@));
            assert(code@ == decode_utf8(tv[i as int].0));
            assert(g@.take(0) =~= Seq::<Vocab>::empty());
        }
        let ghost before = out@;
        let mut j: usize = 0;
        while j < g.len()
            invariant
                j <= g@.len(),
                out@ == before + group_lines(code@, g@.take(j as int)),
            decreases g@.len() - j,
        {
            let v = &g[j];
            push_line(&mut out, v.text.as_str(), code.as_str(), Some(v.weight));
            proof {
                assert(g@.take(j + 1).drop_last() == g@.take(j as int));
            }
            j += 1;
        }
        proof {
            assert(g@.take(g@.len() as int) == g@);
            assert(tv.take(i + 1).drop_last() == tv.take(i as int));
        }
        i += 1;
    }
    proof {
        assert(tv.take(tv.len() as int) == tv);
    }
    out
}


/// `s` is ordered by descending weight.
pub open spec fn weight_desc(s: Seq<Vocab>) -> bool {
    forall|i: int, j: int| 0 <= i < j < s.len() ==> #[trigger] s[i].weight >= #[trigger] s[j].weight
}

/// The position of the first entry of `s` lighter than `w`, or the length of `s`.
spec fn first_lighter(s: Seq<Vocab>, w: u32) -> nat
    decreases s.len(),
{
    if s.len() == 0 {
        0
    } else if s[0].weight < w {
        0
    } else {
        1 + first_lighter(s.drop_first(), w)
    }
}

proof fn lemma_first_lighter(s: Seq<Vocab>, w: u32)
    ensures
        first_lighter(s, w) <= s.len(),
        forall|t: int| 0 <= t < first_lighter(s, w) ==> #[trigger] s[t].weight >= w,
        first_lighter(s, w) < s.len() ==> s[first_lighter(s, w) as int].weight < w,
    decreases s.len(),
{
    if s.len() > 0 && s[0].weight >= w {
        lemma_first_lighter(s.drop_first(), w);
        assert forall|t: int| 0 <= t < first_lighter(s, w) implies #[trigger] s[t].weight >= w by {
            if t > 0 {
                assert(s[t] == s.drop_first()[t - 1]);
            }
        }
    }
}

/// A stable sort by weight yields its input ordered by descending weight,
/// with the same entries as often as they came.
pub proof fn lemma_sort_desc_sorted_permutation(s: Seq<Vocab>)
    ensures
        weight_desc(sort_desc(s)),
        sort_desc(s).to_multiset() == s.to_multiset(),
    decreases s.len(),
{
    broadcast use vstd::seq_lib::group_to_multiset_ensures;
    if s.len() == 0 {
        assert(sort_desc(s) == s);
    } else {
        let rest = s.drop_last();
        let x = s.last();
        lemma_sort_desc_sorted_permutation(rest);
        let t = sort_desc(rest);
        lemma_first_lighter(t, x.weight);
        let j = first_lighter(t, x.weight) as int;
        lemma_insert_desc_at(t, x, j);
        let r = t.insert(j, x);
        assert forall|a: int, b: int| 0 <= a < b < r.len() implies #[trigger] r[a].weight >= #[trigger] r[b].weight by {
            if b < j {
                assert(r[a] == t[a] && r[b] == t[b]);
            } else if b == j {
                assert(r[a] == t[a]);
            } else if a > j {
                assert(r[a] == t[a - 1] && r[b] == t[b - 1]);
            } else if a == j {
                assert(r[b] == t[b - 1]);
                assert(t[j].weight < x.weight || j == b - 1);
                if j < b - 1 {
                    assert(t[j].weight >= t[b - 1].weight);
                }
            } else {
                assert(r[a] == t[a] && r[b] == t[b - 1]);
            }
        }
        assert(r =~= t.take(j) + seq![x] + t.skip(j));
        assert(t =~= t.take(j) + t.skip(j));
        vstd::seq_lib::lemma_multiset_commutative(t.take(j) + seq![x], t.skip(j));
        vstd::seq_lib::lemma_multiset_commutative(t.take(j), seq![x]);
        vstd::seq_lib::lemma_multiset_commutative(t.take(j), t.skip(j));
        assert(seq![x] =~= Seq::<Vocab>::empty().push(x));
        assert(s =~= rest.push(x));
        assert(r.to_multiset() =~= s.to_multiset());
    }
}

} // verus!
