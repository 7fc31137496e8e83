//! Entity handles: a 24-bit index packed with an 8-bit generation.

use vstd::prelude::*;
use vstd::string::StringExecFns;

verus! {

/// Only one entity with a given index may be alive at a time.
pub type Index = u32;

/// Generation is incremented each time an index is re-used.
pub type Generation = u8;

/// Number of bits of an entity handle that hold the index.
pub const INDEX_BITS: u32 = 24;

/// Mask selecting the index bits of an entity handle.
pub const INDEX_MASK: u32 = 0x00ff_ffff;

/// Mask selecting the generation bits once shifted down.
pub const GENERATION_MASK: u32 = 0xff;

/// The largest index an entity handle can hold, plus one.
pub open spec fn index_limit() -> int {
    0x0100_0000
}

/// A handle onto an entity in a scene.
#[derive(PartialEq, Eq, Structural, Debug, Copy, Clone, Hash)]
pub struct Entity(pub u32);

/// The packed form of an index and a generation.
pub open spec fn pack(index: u32, generation: u8) -> u32 {
    (index & INDEX_MASK) | (((generation as u32) & GENERATION_MASK) << INDEX_BITS)
}

/// The entity handle that holds `index` and `generation`.
pub open spec fn entity_of(index: u32, generation: u8) -> Entity {
    Entity(pack(index, generation))
}

/// The index held in a packed handle.
pub open spec fn index_of(bits: u32) -> u32 {
    bits & INDEX_MASK
}

/// The generation held in a packed handle.
pub open spec fn generation_of(bits: u32) -> u8 {
    ((bits >> INDEX_BITS) & GENERATION_MASK) as u8
}

/// A handle is formed out of an index and a generation.
pub trait Handle<TIndex, TGeneration>: Sized + Copy {
    /// The index held by the handle.
    spec fn spec_index(&self) -> TIndex;

    /// The generation held by the handle.
    spec fn spec_generation(&self) -> TGeneration;

    /// Whether `index` can be held by a handle unchanged.
    spec fn index_fits(index: TIndex) -> bool;

    /// Constructs a new handle.
    fn new(index: TIndex, generation: TGeneration) -> (h: Self)
        ensures
            Self::index_fits(index) ==> h.spec_index() == index,
            h.spec_generation() == generation,
    ;

    /// Gets the index component of the handle.
    fn index(&self) -> (i: TIndex)
        ensures
            i == self.spec_index(),
    ;

    /// Gets the generation component of the handle.
    fn generation(&self) -> (g: TGeneration)
        ensures
            g == self.spec_generation(),
    ;
}

/// The character of a decimal digit.
pub open spec fn digit_char(d: nat) -> char {
    (d + 48) as char
}

/// The decimal digits of `n`, most significant first, without leading
/// zeros.
pub open spec fn decimal(n: nat) -> Seq<char>
    decreases n,
{
    if n < 10 {
        seq![digit_char(n)]
    } else {
        decimal(n / 10).push(digit_char(n % 10))
    }
}

/// The text `(index: {}, gen: {})` with the index and generation in decimal.
pub open spec fn entity_text(index: u32, generation: u8) -> Seq<char> {
    seq!['(', 'i', 'n', 'd', 'e', 'x', ':', ' '] + decimal(index as nat) + seq![
        ',',
        ' ',
        'g',
        'e',
        'n',
        ':',
        ' ',
    ] + decimal(generation as nat) + seq![')']
}

/// The text of a decimal digit.
fn digit_str(d: u32) -> (s: &'static str)
    requires
        d < 10,
    ensures
        s@ == seq![digit_char(d as nat)],
{
    proof {
        reveal_strlit("0");
        reveal_strlit("1");
        reveal_strlit("2");
        reveal_strlit("3");
        reveal_strlit("4");
        reveal_strlit("5");
        reveal_strlit("6");
        reveal_strlit("7");
        reveal_strlit("8");
        reveal_strlit("9");
    }
    match d {
        0 => "0",
        1 => "1",
        2 => "2",
        3 => "3",
        4 => "4",
        5 => "5",
        6 => "6",
        7 => "7",
        8 => "8",
        _ => "9",
    }
}

/// Appends the decimal digits of `n` to `s`.
fn push_decimal(s: &mut String, n: u32)
    ensures
        final(s)@ == old(s)@ + decimal(n as nat),
    decreases n,
{
    if n >= 10 {
        push_decimal(s, n / 10);
    }
    s.append(digit_str(n % 10));
    assert(s@ =~= old(s)@ + decimal(n as nat));
}

impl Entity {
    /// The raw bits of the handle.
    pub open spec fn bits(self) -> u32 {
        self.0
    }

    /// Formats the entity as `(index: {}, gen: {})`.
    pub fn to_string(&self) -> (s: String)
        ensures
            s@ == entity_text(index_of(self.0), generation_of(self.0)),
    {
        let mut s = String::from_str("(index: ");
        push_decimal(&mut s, self.index());
        s.append(", gen: ");
        push_decimal(&mut s, self.generation() as u32);
        s.append(")");
        proof {
            reveal_strlit("(index: ");
            reveal_strlit(", gen: ");
            reveal_strlit(")");
            assert(s@ =~= entity_text(index_of(self.0), generation_of(self.0)));
        }
        s
    }
}

pub proof fn lemma_pack_unpack(index: u32, generation: u8)
    ensures
        index_of(pack(index, generation)) == index & INDEX_MASK,
        generation_of(pack(index, generation)) == generation,
{
    let g = generation as u32;
    assert(((index & 0x00ff_ffffu32) | ((g & 0xffu32) << 24u32)) & 0x00ff_ffffu32 == index & 0x00ff_ffffu32) by (bit_vector);
    assert((((index & 0x00ff_ffffu32) | ((g & 0xffu32) << 24u32)) >> 24u32) & 0xffu32 == g) by (bit_vector)
        requires g < 256u32;
}

/// A handle built from an index that fits gives back that index and
/// generation.
pub proof fn lemma_entity_of_fits(index: u32, generation: u8)
    requires
        index < index_limit(),
    ensures
        index_of(entity_of(index, generation).0) == index,
        generation_of(entity_of(index, generation).0) == generation,
{
    lemma_pack_unpack(index, generation);
    assert(index < 0x0100_0000u32 ==> index & 0x00ff_ffffu32 == index) by (bit_vector);
}

/// A handle is determined by its index and generation.
pub proof fn lemma_entity_unpack(e: Entity)
    ensures
        e == entity_of(index_of(e.0), generation_of(e.0)),
        index_of(e.0) < index_limit(),
{
    let bits = e.0;
    assert(((bits & 0x00ff_ffffu32) & 0x00ff_ffffu32) | ((((bits >> 24u32) & 0xffu32) & 0xffu32)
        << 24u32) == bits) by (bit_vector);
    assert(bits & 0x00ff_ffffu32 < 0x0100_0000u32) by (bit_vector);
    assert(((bits >> 24u32) & 0xffu32) < 256u32) by (bit_vector);
    assert((((bits >> 24u32) & 0xffu32) as u8) as u32 == ((bits >> 24u32) & 0xffu32));
}

impl Handle<Index, Generation> for Entity {
    open spec fn spec_index(&self) -> Index {
        index_of(self.0)
    }

    open spec fn spec_generation(&self) -> Generation {
        generation_of(self.0)
    }

    open spec fn index_fits(index: Index) -> bool {
        index < index_limit()
    }

    fn new(index: Index, generation: Generation) -> (h: Entity)
        ensures
            h == entity_of(index, generation),
    {
        proof {
            lemma_pack_unpack(index, generation);
            assert(index < 0x0100_0000u32 ==> index & 0x00ff_ffffu32 == index) by (bit_vector);
        }
        Entity((index & INDEX_MASK) | (((generation as u32) & GENERATION_MASK) << INDEX_BITS))
    }

    fn index(&self) -> (i: Index)
        ensures
            i == index_of(self.0),
            i < index_limit(),
    {
        let bits = self.0;
        assert(bits & 0x00ff_ffffu32 < 0x0100_0000u32) by (bit_vector);
        self.0 & INDEX_MASK
    }

    fn generation(&self) -> (g: Generation)
        ensures
            g == generation_of(self.0),
    {
        let bits = self.0;
        assert((bits >> 24u32) & 0xffu32 < 256u32) by (bit_vector);
        ((self.0 >> INDEX_BITS) & GENERATION_MASK) as u8
    }
}

} // verus!

verus! {

/// Whether every character of `s` is a decimal digit.
pub open spec fn all_digits(s: Seq<char>) -> bool {
    forall|k: int| 0 <= k < s.len() ==> '0' <= #[trigger] s[k] <= '9'
}

/// The number a string of decimal digits denotes, most significant first.
pub open spec fn digits_value(s: Seq<char>) -> nat
    decreases s.len(),
{
    if s.len() == 0 {
        0
    } else {
        digits_value(s.drop_last()) * 10 + ((s.last() as int - '0' as int) as nat)
    }
}

/// The decimal text of a number is a non-empty run of digits that reads
/// back as the number.
pub proof fn lemma_decimal_reads_back(n: nat)
    ensures
        decimal(n).len() > 0,
        all_digits(decimal(n)),
        digits_value(decimal(n)) == n,
    decreases n,
{
    let m = n % 10;
    assert(digit_char(m) as int == m + 48);
    assert('0' as int == 48);
    if n < 10 {
        assert(decimal(n).drop_last() =~= Seq::<char>::empty());
        assert(decimal(n).last() == digit_char(n));
        assert(digits_value(decimal(n)) == digits_value(decimal(n).drop_last()) * 10 + ((decimal(n).last() as int - '0' as int) as nat));
        assert(digits_value(Seq::<char>::empty()) == 0);
        assert(n % 10 == n);
    } else {
        lemma_decimal_reads_back(n / 10);
        let d = decimal(n / 10);
        assert(decimal(n) == d.push(digit_char(n % 10)));
        assert(decimal(n).drop_last() =~= d);
        assert(decimal(n).last() == digit_char(m));
        assert forall|k: int| 0 <= k < decimal(n).len() implies '0' <= #[trigger] decimal(n)[k] <= '9' by {
            if k < d.len() {
                assert(decimal(n)[k] == d[k]);
            }
        }
        assert((n / 10) * 10 + n % 10 == n) by (nonlinear_arith);
        assert(digits_value(decimal(n)) == digits_value(d) * 10 + ((decimal(n).last() as int - '0' as int) as nat));
    }
}

/// The printed form of a handle names its index and its generation: it is
/// `(index: `, the digits of a number, `, gen: `, the digits of a number
/// and `)`, and those numbers are the handle's index and generation.
pub proof fn lemma_entity_text_names_handle(index: u32, generation: u8)
    ensures
        exists|a: Seq<char>, b: Seq<char>|
            {
                &&& entity_text(index, generation) == seq!['(', 'i', 'n', 'd', 'e', 'x', ':', ' ']
                    + a + seq![',', ' ', 'g', 'e', 'n', ':', ' '] + b + seq![')']
                &&& a.len() > 0 && all_digits(a) && digits_value(a) == index
                &&& b.len() > 0 && all_digits(b) && digits_value(b) == generation
            },
{
    lemma_decimal_reads_back(index as nat);
    lemma_decimal_reads_back(generation as nat);
    let a = decimal(index as nat);
    let b = decimal(generation as nat);
    assert(entity_text(index, generation) == seq!['(', 'i', 'n', 'd', 'e', 'x', ':', ' '] + a
        + seq![',', ' ', 'g', 'e', 'n', ':', ' '] + b + seq![')']);
}

} // verus!
