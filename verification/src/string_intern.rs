//! Compact strings: `InlineStr`, a heap-free string of at most 15 bytes, and
//! `CompactSymbolTable`, which interns strings into 4-byte symbol ids.

use vstd::prelude::*;
use vstd::string::StringSliceAdditionalSpecFns;

verus! {

broadcast use vstd::utf8::encode_utf8_valid_utf8;

/// A string of at most 15 bytes stored inline (`[u8; 15]` plus a length).
#[derive(Clone, Copy, PartialEq, Eq, Hash)]
pub struct InlineStr {
    data: [u8; 15],
    len: u8,
}

/// `std::str::from_utf8`: `Some` exactly for valid UTF-8, whose string has
/// those bytes.
#[verifier::external_body]
fn utf8_to_str(bytes: &[u8]) -> (r: Option<&str>)
    ensures
        r is Some <==> vstd::utf8::valid_utf8(bytes@),
        r matches Some(s) ==> s.spec_bytes() == bytes@,
{
    std::str::from_utf8(bytes).ok()
}

impl InlineStr {
    /// The stored bytes: valid UTF-8, at most 15 of them, the rest of the
    /// buffer zero.
    #[verifier::type_invariant]
    spec fn inv(self) -> bool {
        &&& self.len <= 15
        &&& vstd::utf8::valid_utf8(self.data@.take(self.len as int))
        &&& forall|i: int| self.len <= i < 15 ==> #[trigger] self.data@[i] == 0
    }

    /// The bytes of the string.
    pub closed spec fn bytes(self) -> Seq<u8> {
        self.data@.take(self.len as int)
    }

    /// `self` is the value made from the bytes `b`: they fill the buffer
    /// from the start, the rest of it is zero.
    pub closed spec fn made_from(self, b: Seq<u8>) -> bool {
        &&& b.len() <= 15
        &&& self.len == b.len()
        &&& forall|i: int| 0 <= i < 15 ==> #[trigger] self.data@[i] == if i < b.len() {
            b[i]
        } else {
            0u8
        }
    }

    /// Value equality is byte equality: two values made from byte strings
    /// are equal exactly when the byte strings are.
    pub proof fn lemma_eq_iff_bytes(a: Self, b: Self, ba: Seq<u8>, bb: Seq<u8>)
        requires
            a.made_from(ba),
            b.made_from(bb),
        ensures
            a == b <==> ba == bb,
            a.bytes() == ba,
            b.bytes() == bb,
    {
        broadcast use vstd::array::group_array_axioms;

        assert(a.bytes() =~= ba);
        assert(b.bytes() =~= bb);
        if ba == bb {
            assert(a.data@ =~= b.data@);
            assert(a.data == b.data);
        }
    }

    /// The only constructor: `None` for strings longer than 15 bytes.
    pub fn try_from_str(s: &str) -> (r: Option<Self>)
        ensures
            r is Some <==> s.spec_bytes().len() <= 15,
            r matches Some(v) ==> v.bytes() == s.spec_bytes(),
            r matches Some(v) ==> v.made_from(s.spec_bytes()),
    {
        let b = s.as_bytes();
        let n = b.len();
        if n <= 15 {
            let mut data = [0u8; 15];
            let mut i: usize = 0;
            while i < n
                invariant
                    i <= n <= 15,
                    b@ == s.spec_bytes(),
                    b@.len() == n,
                    forall|k: int| 0 <= k < i ==> #[trigger] data@[k] == b@[k],
                    forall|k: int| n <= k < 15 ==> #[trigger] data@[k] == 0,
                decreases n - i,
            {
                data[i] = b[i];
                i += 1;
            }
            assert(data@.take(n as int) =~= s.spec_bytes());
            Some(Self { data, len: n as u8 })
        } else {
            None
        }
    }

    /// The stored string.
    pub fn as_str(&self) -> (r: &str)
        ensures
            r.spec_bytes() == self.bytes(),
    {
        proof {
            use_type_invariant(self);
        }
        let n = self.len as usize;
        let bytes = self.data.as_slice();
        match utf8_to_str(vstd::slice::slice_subrange(bytes, 0, n)) {
            Some(s) => s,
            None => "",
        }
    }

    /// Number of stored bytes (0..=15).
    pub fn len(&self) -> (n: u8)
        ensures
            n == self.bytes().len(),
            n <= 15,
    {
        proof {
            use_type_invariant(self);
        }
        self.len
    }

    /// True for the empty string.
    pub fn is_empty(&self) -> (b: bool)
        ensures
            b == (self.bytes().len() == 0),
    {
        proof {
            use_type_invariant(self);
        }
        self.len == 0
    }
}

/// Handle of an interned string: its index in insertion order.
#[derive(Clone, Copy, PartialEq, Eq, Hash, Debug)]
pub struct SymbolId(pub u32);

/// Interning table: each distinct string is stored once and gets the next id.
pub struct CompactSymbolTable {
    symbols: Vec<String>,
    bytes_saved: u64,
}

/// Index of the first occurrence of `s` in `syms`, if any.
pub open spec fn position_of(syms: Seq<Seq<char>>, s: Seq<char>) -> Option<int> {
    if exists|i: int| 0 <= i < syms.len() && syms[i] == s {
        Some(choose|i: int| 0 <= i < syms.len() && syms[i] == s)
    } else {
        None
    }
}

/// The interned strings after interning `s` into `syms`.
pub open spec fn after_intern(syms: Seq<Seq<char>>, s: Seq<char>) -> Seq<Seq<char>> {
    match position_of(syms, s) {
        Some(_) => syms,
        None => syms.push(s),
    }
}

/// Interning is stable: after interning `s`, it is found at an index that
/// holds `s` (so resolving the returned id gives `s` back), interning it
/// again finds the same index and changes nothing, and a string met for the
/// first time gets the next index.
pub proof fn lemma_intern_stable(syms: Seq<Seq<char>>, s: Seq<char>)
    ensures
        position_of(after_intern(syms, s), s) matches Some(i) && 0 <= i < after_intern(syms, s).len()
            && after_intern(syms, s)[i] == s,
        after_intern(after_intern(syms, s), s) == after_intern(syms, s),
        position_of(syms, s) is Some ==> position_of(after_intern(syms, s), s) == position_of(syms, s),
        position_of(syms, s) is None ==> position_of(after_intern(syms, s), s) == Some(syms.len() as int),
{
    let s1 = after_intern(syms, s);
    if position_of(syms, s) is None {
        assert(s1[syms.len() as int] == s);
        let i = choose|i: int| 0 <= i < s1.len() && s1[i] == s;
        if i < syms.len() {
            assert(syms[i] == s);
        }
    }
}

impl CompactSymbolTable {
    /// No string is stored twice.
    #[verifier::type_invariant]
    spec fn inv(self) -> bool {
        forall|i: int, j: int|
            0 <= i < j < self.symbols@.len() ==> #[trigger] self.symbols@[i]@ != #[trigger] self.symbols@[j]@
    }

    /// The interned strings in id order.
    pub closed spec fn syms(self) -> Seq<Seq<char>> {
        self.symbols@.map_values(|s: String| s@)
    }

    /// The running estimate of bytes saved by deduplication.
    pub closed spec fn saved(self) -> u64 {
        self.bytes_saved
    }

    pub fn new() -> (t: Self)
        ensures
            t.syms() == Seq::<Seq<char>>::empty(),
            t.saved() == 0,
    {
        let t = Self { symbols: Vec::new(), bytes_saved: 0 };
        assert(t.syms() =~= Seq::<Seq<char>>::empty());
        t
    }

    /// Interns `s`. A string already present returns its id and adds
    /// `24 + s.len()` to the saved-bytes estimate (the `String` that was not
    /// allocated); a new string is appended and gets the id `symbol_count()`
    /// (truncated to 32 bits).
    pub fn intern(&mut self, s: &str) -> (id: SymbolId)
        requires
            old(self).saved() + 24 + s.spec_bytes().len() <= u64::MAX,
        ensures
            match position_of(old(self).syms(), s@) {
                Some(i) => {
                    &&& id.0 as int == i % 0x1_0000_0000
                    &&& final(self).syms() == old(self).syms()
                    &&& final(self).saved() == old(self).saved() + 24 + s.spec_bytes().len()
                },
                None => {
                    &&& id.0 as int == old(self).syms().len() % 0x1_0000_0000
                    &&& final(self).syms() == old(self).syms().push(s@)
                    &&& final(self).saved() == old(self).saved()
                },
            },
            final(self).syms().len() <= 0x1_0000_0000 ==> final(self).syms()[id.0 as int] == s@,
            final(self).syms() == after_intern(old(self).syms(), s@),
    {
        proof {
            use_type_invariant(&*self);
        }
        let owned: String = s.to_owned();
        let slen = s.as_bytes().len();
        let mut i: usize = 0;
        while i < self.symbols.len()
            invariant
                i <= self.symbols@.len(),
                owned@ == s@,
                slen == s.spec_bytes().len(),
                self.symbols@ == old(self).symbols@,
                self.bytes_saved == old(self).bytes_saved,
                old(self).saved() + 24 + s.spec_bytes().len() <= u64::MAX,
                forall|a: int, c: int|
                    0 <= a < c < self.symbols@.len() ==> #[trigger] self.symbols@[a]@
                        != #[trigger] self.symbols@[c]@,
                forall|k: int| 0 <= k < i ==> #[trigger] self.symbols@[k]@ != s@,
            decreases self.symbols@.len() - i,
        {
            if self.symbols[i] == owned {
                assert(self.syms()[i as int] == s@);
                assert(position_of(self.syms(), s@) == Some(i as int)) by {
                    let j = choose|j: int| 0 <= j < self.syms().len() && self.syms()[j] == s@;
                    if j < i {
                        assert(self.symbols@[j]@ == s@);
                    } else if j > i {
                        assert(self.symbols@[i as int]@ == self.symbols@[j]@);
                    }
                }
                self.bytes_saved = self.bytes_saved + 24 + slen as u64;
                assert((i as u32) as int == i as int % 0x1_0000_0000) by (bit_vector);
                assert(self.symbols@.len() <= 0x1_0000_0000 ==> i as int % 0x1_0000_0000 == i);
                return SymbolId(#[verifier::truncate] (i as u32));
            }
            i += 1;
        }
        assert(position_of(self.syms(), s@) is None) by {
            if exists|j: int| 0 <= j < self.syms().len() && self.syms()[j] == s@ {
                let j = choose|j: int| 0 <= j < self.syms().len() && self.syms()[j] == s@;
                assert(self.symbols@[j]@ == s@);
            }
        }
        let n = self.symbols.len();
        let id = SymbolId(#[verifier::truncate] (n as u32));
        assert((n as u32) as int == n as int % 0x1_0000_0000) by (bit_vector);
        let ghost old_syms = self.syms();
        let ghost old_vec = self.symbols@;
        let mut syms: Vec<String> = Vec::new();
        std::mem::swap(&mut syms, &mut self.symbols);
        syms.push(owned);
        assert forall|a: int, b: int| 0 <= a < b < syms@.len() implies #[trigger] syms@[a]@
            != #[trigger] syms@[b]@ by {
            assert(syms@[a] == old_vec[a]);
            if b == syms@.len() - 1 {
                assert(old_vec[a]@ == old_syms[a]);
            } else {
                assert(syms@[b] == old_vec[b]);
            }
        }
        self.symbols = syms;
        assert(self.syms() =~= old_syms.push(s@));
        id
    }

    /// The string of an id, or `None` for an id that was never handed out.
    pub fn resolve(&self, id: SymbolId) -> (r: Option<&str>)
        ensures
            id.0 < self.syms().len() ==> (r matches Some(s) && s@ == self.syms()[id.0 as int]),
            id.0 >= self.syms().len() ==> r is None,
    {
        let i = id.0 as usize;
        if i < self.symbols.len() {
            Some(self.symbols[i].as_str())
        } else {
            None
        }
    }

    pub fn symbol_count(&self) -> (n: usize)
        ensures
            n == self.syms().len(),
    {
        self.symbols.len()
    }

    pub fn bytes_saved_estimate(&self) -> (b: u64)
        ensures
            b == self.saved(),
    {
        self.bytes_saved
    }
}

} // verus!
