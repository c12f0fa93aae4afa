//! The tag tree model: the executable tag types and their mathematical views.
//!
//! `NbtTag` is the closed union of the twelve value kinds the format defines.
//! Its view is a `SpecTag`, the same tree over `Seq` and `Seq<char>`, which is
//! what every contract in this crate speaks about.

use vstd::prelude::*;

verus! {

/// The mathematical model of one tag: the tree over `Seq`, used in contracts.
///
/// Floating-point values are carried as their IEEE 754 bit patterns (`u32` /
/// `u64`); the codec reads and writes them as plain big-endian bits and never
/// interprets them.
pub enum SpecTag {
    Byte(i8),
    Short(i16),
    Int(i32),
    Long(i64),
    Float(u32),
    Double(u64),
    ByteArray(Seq<i8>),
    String(Seq<char>),
    List(Seq<SpecTag>),
    Compound(Seq<(Seq<char>, SpecTag)>),
    IntArray(Seq<i32>),
    LongArray(Seq<i64>),
}

/// One tag value in the tree, discriminated on the wire by a one-byte type
/// identifier (`0x01` through `0x0C`).
///
/// `Float` and `Double` hold the IEEE 754 bit patterns of the corresponding
/// 32- and 64-bit values; callers that want native floats convert outside the
/// verified library.
#[derive(Debug)]
pub enum NbtTag {
    Byte(i8),
    Short(i16),
    Int(i32),
    Long(i64),
    Float(u32),
    Double(u64),
    ByteArray(Vec<i8>),
    String(String),
    List(NbtList),
    Compound(NbtCompound),
    IntArray(Vec<i32>),
    LongArray(Vec<i64>),
}

/// An ordered, homogeneously-typed sequence of tags. The element type is
/// recorded once on the wire, not stored here; an empty list has no element
/// type at all.
#[derive(Debug)]
pub struct NbtList {
    pub tags: Vec<NbtTag>,
}

/// A mapping from names to tags, in insertion order, with unique names:
/// inserting an existing name overwrites its value in place.
#[derive(Debug)]
pub struct NbtCompound {
    pub entries: Vec<(String, NbtTag)>,
}

impl View for NbtTag {
    type V = SpecTag;

    open spec fn view(&self) -> SpecTag
        decreases self,
    {
        match self {
            NbtTag::Byte(v) => SpecTag::Byte(*v),
            NbtTag::Short(v) => SpecTag::Short(*v),
            NbtTag::Int(v) => SpecTag::Int(*v),
            NbtTag::Long(v) => SpecTag::Long(*v),
            NbtTag::Float(v) => SpecTag::Float(*v),
            NbtTag::Double(v) => SpecTag::Double(*v),
            NbtTag::ByteArray(v) => SpecTag::ByteArray(v@),
            NbtTag::String(s) => SpecTag::String(s@),
            NbtTag::List(l) => SpecTag::List(l.view()),
            NbtTag::Compound(c) => SpecTag::Compound(c.view()),
            NbtTag::IntArray(v) => SpecTag::IntArray(v@),
            NbtTag::LongArray(v) => SpecTag::LongArray(v@),
        }
    }
}

impl View for NbtList {
    type V = Seq<SpecTag>;

    open spec fn view(&self) -> Seq<SpecTag>
        decreases self,
    {
        Seq::new(
            self.tags@.len(),
            |i: int|
                if 0 <= i < self.tags@.len() {
                    self.tags@[i]@
                } else {
                    SpecTag::Byte(0)
                },
        )
    }
}

impl View for NbtCompound {
    type V = Seq<(Seq<char>, SpecTag)>;

    open spec fn view(&self) -> Seq<(Seq<char>, SpecTag)>
        decreases self,
    {
        Seq::new(
            self.entries@.len(),
            |i: int|
                if 0 <= i < self.entries@.len() {
                    (self.entries@[i].0@, self.entries@[i].1@)
                } else {
                    (Seq::empty(), SpecTag::Byte(0))
                },
        )
    }
}

/// The value under the first entry named `k`, if any. With unique keys this is
/// the value of the one entry named `k`.
pub open spec fn spec_lookup(es: Seq<(Seq<char>, SpecTag)>, k: Seq<char>) -> Option<SpecTag>
    decreases es.len(),
{
    if es.len() == 0 {
        None
    } else if es[0].0 == k {
        Some(es[0].1)
    } else {
        spec_lookup(es.drop_first(), k)
    }
}

/// Insertion with overwrite: an existing name keeps its position and takes the
/// new value; a fresh name is appended. Later insertions win over earlier ones.
pub open spec fn spec_insert(
    es: Seq<(Seq<char>, SpecTag)>,
    k: Seq<char>,
    v: SpecTag,
) -> Seq<(Seq<char>, SpecTag)>
    decreases es.len(),
{
    if es.len() == 0 {
        seq![(k, v)]
    } else if es[0].0 == k {
        seq![(k, v)] + es.drop_first()
    } else {
        seq![es[0]] + spec_insert(es.drop_first(), k, v)
    }
}

impl NbtCompound {
    /// A new, empty compound.
    pub fn new() -> (r: NbtCompound)
        ensures
            r@ == Seq::<(Seq<char>, SpecTag)>::empty(),
    {
        let r = NbtCompound { entries: Vec::new() };
        proof {
            assert(r@ =~= Seq::<(Seq<char>, SpecTag)>::empty());
        }
        r
    }

    /// The number of entries.
    pub fn len(&self) -> (r: usize)
        ensures
            r == self@.len(),
    {
        self.entries.len()
    }

    /// The name and value of the entry at `i`, in insertion order.
    pub fn entry_at(&self, i: usize) -> (r: (&String, &NbtTag))
        requires
            i < self@.len(),
        ensures
            (r.0@, r.1@) == self@[i as int],
    {
        (&self.entries[i].0, &self.entries[i].1)
    }

    /// Inserts `value` under `name`, overwriting any prior value of that name:
    /// of two entries for one name, the later insertion wins.
    pub fn insert(&mut self, name: String, value: NbtTag)
        ensures
            final(self)@ == spec_insert(old(self)@, name@, value@),
            spec_lookup(final(self)@, name@) == Some(value@),
    {
        let ghost pre = old(self)@;
        let mut i: usize = 0;
        while i < self.entries.len()
            invariant
                pre == old(self)@,
                i <= self.entries.len(),
                self@ == pre,
                forall|j: int| 0 <= j < i ==> pre[j].0 != name@,
            decreases self.entries.len() - i,
        {
            if string_eq(&self.entries[i].0, &name) {
                let ghost kk = name@;
                let ghost vv = value@;
                self.entries[i] = (name, value);
                proof {
                    lemma_insert_at(pre, kk, vv, i as int);
                    assert(self@ =~~= pre.update(i as int, (kk, vv)));
                    lemma_insert_lookup(pre, kk, vv);
                }
                return ;
            }
            i = i + 1;
        }
        self.entries.push((name, value));
        proof {
            lemma_insert_fresh(pre, name@, value@);
            assert(self@ =~~= pre.push((name@, value@)));
            lemma_insert_lookup(pre, name@, value@);
        }
    }

    /// The value under `name`, or `None` when no entry has that name.
    pub fn get(&self, name: &str) -> (r: Option<&NbtTag>)
        ensures
            match r {
                Some(t) => spec_lookup(self@, name@) == Some(t@),
                None => spec_lookup(self@, name@) is None,
            },
    {
        let mut i: usize = 0;
        proof {
            assert(self@.skip(0) =~= self@);
        }
        while i < self.entries.len()
            invariant
                i <= self.entries.len(),
                forall|j: int| 0 <= j < i ==> self@[j].0 != name@,
                spec_lookup(self@, name@) == spec_lookup(self@.skip(i as int), name@),
            decreases self.entries.len() - i,
        {
            proof {
                assert(self@.skip(i as int)[0] == self@[i as int]);
                assert(self@.skip(i as int).drop_first() =~= self@.skip(i as int + 1));
            }
            if string_eq(&self.entries[i].0, name) {
                return Some(&self.entries[i].1);
            }
            i = i + 1;
        }
        proof {
            assert(self@.skip(self@.len() as int) =~= Seq::<(Seq<char>, SpecTag)>::empty());
        }
        None
    }
}

/// Relies on `<str as PartialEq>::eq`: two string slices are equal exactly when
/// their character sequences are equal.
#[verifier::external_body]
pub fn string_eq(a: &str, b: &str) -> (r: bool)
    ensures
        r == (a@ == b@),
{
    a == b
}

proof fn lemma_insert_at(es: Seq<(Seq<char>, SpecTag)>, k: Seq<char>, v: SpecTag, i: int)
    requires
        0 <= i < es.len(),
        es[i].0 == k,
        forall|j: int| 0 <= j < i ==> es[j].0 != k,
    ensures
        spec_insert(es, k, v) == es.update(i, (k, v)),
    decreases es.len(),
{
    if i == 0 {
        assert(spec_insert(es, k, v) =~= es.update(0, (k, v)));
    } else {
        lemma_insert_at(es.drop_first(), k, v, i - 1);
        assert(spec_insert(es, k, v) =~= es.update(i, (k, v)));
    }
}

/// Inserting a fresh name appends the entry.
pub proof fn lemma_insert_fresh(es: Seq<(Seq<char>, SpecTag)>, k: Seq<char>, v: SpecTag)
    requires
        forall|j: int| 0 <= j < es.len() ==> es[j].0 != k,
    ensures
        spec_insert(es, k, v) == es.push((k, v)),
    decreases es.len(),
{
    if es.len() == 0 {
        assert(spec_insert(es, k, v) =~= es.push((k, v)));
    } else {
        lemma_insert_fresh(es.drop_first(), k, v);
        assert(spec_insert(es, k, v) =~= es.push((k, v)));
    }
}

/// Inserting under one name leaves every other name's value unchanged.
pub proof fn lemma_insert_lookup_other(
    es: Seq<(Seq<char>, SpecTag)>,
    k: Seq<char>,
    v: SpecTag,
    k2: Seq<char>,
)
    requires
        k2 != k,
    ensures
        spec_lookup(spec_insert(es, k, v), k2) == spec_lookup(es, k2),
    decreases es.len(),
{
    if es.len() == 0 {
        assert(seq![(k, v)][0] == (k, v));
        assert(seq![(k, v)].drop_first() =~= Seq::<(Seq<char>, SpecTag)>::empty());
        assert(spec_lookup(Seq::<(Seq<char>, SpecTag)>::empty(), k2) is None);
        assert(spec_lookup(spec_insert(es, k, v), k2) == spec_lookup(es, k2));
    } else if es[0].0 == k {
        assert((seq![(k, v)] + es.drop_first())[0] == (k, v));
        assert((seq![(k, v)] + es.drop_first()).drop_first() =~= es.drop_first());
        assert(spec_lookup(spec_insert(es, k, v), k2) == spec_lookup(es, k2));
    } else {
        lemma_insert_lookup_other(es.drop_first(), k, v, k2);
        assert((seq![es[0]] + spec_insert(es.drop_first(), k, v))[0] == es[0]);
        assert((seq![es[0]] + spec_insert(es.drop_first(), k, v)).drop_first() =~= spec_insert(
            es.drop_first(),
            k,
            v,
        ));
        assert(spec_lookup(spec_insert(es, k, v), k2) == spec_lookup(es, k2));
    }
}

/// Last write wins: after inserting `v` under `k`, looking `k` up yields `v`,
/// whatever the compound held before.
pub proof fn lemma_insert_lookup(es: Seq<(Seq<char>, SpecTag)>, k: Seq<char>, v: SpecTag)
    ensures
        spec_lookup(spec_insert(es, k, v), k) == Some(v),
    decreases es.len(),
{
    if es.len() == 0 {
    } else if es[0].0 == k {
        assert((seq![(k, v)] + es.drop_first())[0] == (k, v));
    } else {
        lemma_insert_lookup(es.drop_first(), k, v);
        assert((seq![es[0]] + spec_insert(es.drop_first(), k, v))[0] == es[0]);
        assert((seq![es[0]] + spec_insert(es.drop_first(), k, v)).drop_first() =~= spec_insert(
            es.drop_first(),
            k,
            v,
        ));
    }
}

fn eq_i8_vec(a: &Vec<i8>, b: &Vec<i8>) -> (r: bool)
    ensures
        r == (a@ == b@),
{
    if a.len() != b.len() {
        proof {
            assert(a@ != b@);
        }
        return false;
    }
    let n = a.len();
    let mut i: usize = 0;
    while i < n
        invariant
            n == a@.len() == b@.len(),
            i <= n,
            forall|j: int| 0 <= j < i ==> a@[j] == b@[j],
        decreases n - i,
    {
        if a[i] != b[i] {
            proof {
                assert(a@[i as int] != b@[i as int]);
            }
            return false;
        }
        i = i + 1;
    }
    proof {
        assert(a@ =~= b@);
    }
    true
}

fn eq_i32_vec(a: &Vec<i32>, b: &Vec<i32>) -> (r: bool)
    ensures
        r == (a@ == b@),
{
    if a.len() != b.len() {
        proof {
            assert(a@ != b@);
        }
        return false;
    }
    let n = a.len();
    let mut i: usize = 0;
    while i < n
        invariant
            n == a@.len() == b@.len(),
            i <= n,
            forall|j: int| 0 <= j < i ==> a@[j] == b@[j],
        decreases n - i,
    {
        if a[i] != b[i] {
            proof {
                assert(a@[i as int] != b@[i as int]);
            }
            return false;
        }
        i = i + 1;
    }
    proof {
        assert(a@ =~= b@);
    }
    true
}

fn eq_i64_vec(a: &Vec<i64>, b: &Vec<i64>) -> (r: bool)
    ensures
        r == (a@ == b@),
{
    if a.len() != b.len() {
        proof {
            assert(a@ != b@);
        }
        return false;
    }
    let n = a.len();
    let mut i: usize = 0;
    while i < n
        invariant
            n == a@.len() == b@.len(),
            i <= n,
            forall|j: int| 0 <= j < i ==> a@[j] == b@[j],
        decreases n - i,
    {
        if a[i] != b[i] {
            proof {
                assert(a@[i as int] != b@[i as int]);
            }
            return false;
        }
        i = i + 1;
    }
    proof {
        assert(a@ =~= b@);
    }
    true
}

impl NbtTag {
    /// Deep structural equality: whether the two trees are the same value.
    #[verifier::rlimit(100)]
    #[verifier::loop_isolation(false)]
    pub fn equals(&self, other: &NbtTag) -> (r: bool)
        ensures
            r == (self@ == other@),
        decreases self,
    {
        broadcast use vstd::std_specs::vec::group_vec_axioms;

        match (self, other) {
            (NbtTag::Byte(a), NbtTag::Byte(b)) => a == b,
            (NbtTag::Short(a), NbtTag::Short(b)) => a == b,
            (NbtTag::Int(a), NbtTag::Int(b)) => a == b,
            (NbtTag::Long(a), NbtTag::Long(b)) => a == b,
            (NbtTag::Float(a), NbtTag::Float(b)) => a == b,
            (NbtTag::Double(a), NbtTag::Double(b)) => a == b,
            (NbtTag::ByteArray(a), NbtTag::ByteArray(b)) => eq_i8_vec(a, b),
            (NbtTag::String(a), NbtTag::String(b)) => string_eq(a.as_str(), b.as_str()),
            (NbtTag::List(a), NbtTag::List(b)) => {
                if a.tags.len() != b.tags.len() {
                    proof {
                        assert(a@.len() != b@.len());
                    }
                    return false;
                }
                let n = a.tags.len();
                let mut i: usize = 0;
                while i < n
                    invariant
                        n == a.tags@.len() == b.tags@.len(),
                        i <= n,
                        forall|j: int| 0 <= j < i ==> a@[j] == b@[j],
                    decreases n - i,
                {
                    if !(&a.tags[i]).equals(&b.tags[i]) {
                        proof {
                            assert(a@[i as int] != b@[i as int]);
                        }
                        return false;
                    }
                    i = i + 1;
                }
                proof {
                    assert(a@ =~= b@);
                }
                true
            },
            (NbtTag::Compound(a), NbtTag::Compound(b)) => {
                if a.entries.len() != b.entries.len() {
                    proof {
                        assert(a@.len() != b@.len());
                    }
                    return false;
                }
                let n = a.entries.len();
                let mut i: usize = 0;
                while i < n
                    invariant
                        n == a.entries@.len() == b.entries@.len(),
                        i <= n,
                        forall|j: int| 0 <= j < i ==> a@[j] == b@[j],
                    decreases n - i,
                {
                    if !string_eq(a.entries[i].0.as_str(), b.entries[i].0.as_str()) {
                        proof {
                            assert(a@[i as int].0 != b@[i as int].0);
                            assert(a@[i as int] != b@[i as int]);
                        }
                        return false;
                    }
                    if !(&a.entries[i].1).equals(&b.entries[i].1) {
                        proof {
                            assert(a@[i as int].1 != b@[i as int].1);
                            assert(a@[i as int] != b@[i as int]);
                        }
                        return false;
                    }
                    proof {
                        assert(a@[i as int] == (a@[i as int].0, a@[i as int].1));
                        assert(b@[i as int] == (b@[i as int].0, b@[i as int].1));
                    }
                    i = i + 1;
                }
                proof {
                    assert(a@ =~= b@);
                }
                true
            },
            (NbtTag::IntArray(a), NbtTag::IntArray(b)) => eq_i32_vec(a, b),
            (NbtTag::LongArray(a), NbtTag::LongArray(b)) => eq_i64_vec(a, b),
            _ => {
                proof {
                    assert(self@ != other@);
                }
                false
            },
        }
    }
}

impl NbtCompound {
    /// Deep structural equality of two compounds.
    pub fn equals(&self, other: &NbtCompound) -> (r: bool)
        ensures
            r == (self@ == other@),
    {
        let mut i: usize = 0;
        if self.entries.len() != other.entries.len() {
            proof {
                assert(self@.len() != other@.len());
            }
            return false;
        }
        let n = self.entries.len();
        while i < n
            invariant
                n == self.entries@.len() == other.entries@.len(),
                i <= n,
                forall|j: int| 0 <= j < i ==> self@[j] == other@[j],
            decreases n - i,
        {
            if !string_eq(self.entries[i].0.as_str(), other.entries[i].0.as_str()) {
                proof {
                    assert(self@[i as int].0 != other@[i as int].0);
                    assert(self@[i as int] != other@[i as int]);
                }
                return false;
            }
            if !(&self.entries[i].1).equals(&other.entries[i].1) {
                proof {
                    assert(self@[i as int].1 != other@[i as int].1);
                    assert(self@[i as int] != other@[i as int]);
                }
                return false;
            }
            proof {
                assert(self@[i as int] == (self@[i as int].0, self@[i as int].1));
                assert(other@[i as int] == (other@[i as int].0, other@[i as int].1));
            }
            i = i + 1;
        }
        proof {
            assert(self@ =~= other@);
        }
        true
    }
}

} // verus!
