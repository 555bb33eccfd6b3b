use vstd::prelude::*;

verus! {

/// How many bits the value is held in.
///
/// It decides whether `0xff` is `-1` or `255`, what a rotation brings round
/// to the bottom, and where a shift throws a bit away.
#[derive(Clone, Copy, Debug, PartialEq, Eq, Structural)]
pub enum Width {
    Eight,
    Sixteen,
    ThirtyTwo,
    SixtyFour,
}

impl Width {
    /// Every width, narrowest first.
    pub const ALL: [Width; 4] = [Width::Eight, Width::Sixteen, Width::ThirtyTwo, Width::SixtyFour];

    /// How many bits, as a number.
    pub open spec fn bit_count(self) -> nat {
        match self {
            Width::Eight => 8,
            Width::Sixteen => 16,
            Width::ThirtyTwo => 32,
            Width::SixtyFour => 64,
        }
    }

    /// One past the largest value the width holds: two to the bit count.
    pub open spec fn limit(self) -> nat {
        match self {
            Width::Eight => 0x100,
            Width::Sixteen => 0x1_0000,
            Width::ThirtyTwo => 0x1_0000_0000,
            Width::SixtyFour => 0x1_0000_0000_0000_0000,
        }
    }

    /// The largest value the width holds.
    pub open spec fn top(self) -> nat {
        (self.limit() - 1) as nat
    }

    /// The bits of `value` the width keeps.
    pub open spec fn kept(self, value: int) -> nat {
        (value % (self.limit() as int)) as nat
    }

    /// The same bits, read as a signed number of this width.
    pub open spec fn signed_reading(self, value: int) -> int {
        let low = self.kept(value);
        if low * 2 >= self.limit() {
            low - self.limit()
        } else {
            low as int
        }
    }

    pub fn bits(self) -> (bits: u32)
        ensures
            bits == self.bit_count(),
    {
        match self {
            Width::Eight => 8,
            Width::Sixteen => 16,
            Width::ThirtyTwo => 32,
            Width::SixtyFour => 64,
        }
    }

    /// The bits a value of this width is allowed to have.
    pub fn mask(self) -> (mask: u64)
        ensures
            mask == self.top(),
    {
        match self {
            Width::Eight => 0xff,
            Width::Sixteen => 0xffff,
            Width::ThirtyTwo => 0xffff_ffff,
            Width::SixtyFour => u64::MAX,
        }
    }

    /// The same bits read as a signed number of this width.
    pub fn signed(self, value: u64) -> (signed: i64)
        ensures
            signed == self.signed_reading(value as int),
    {
        let low = self.keep(value);
        match self {
            Width::SixtyFour => {
                if low <= i64::MAX as u64 {
                    low as i64
                } else {
                    let below = u64::MAX - low;
                    -(below as i64) - 1
                }
            },
            _ => {
                let mask = self.mask();
                if low <= mask / 2 {
                    low as i64
                } else {
                    low as i64 - mask as i64 - 1
                }
            },
        }
    }

    /// Named in digits, which read the same in every language.
    pub fn label(self) -> (label: &'static str)
        ensures
            label@ == self.label_text(),
    {
        proof {
            reveal_strlit("8");
            reveal_strlit("16");
            reveal_strlit("32");
            reveal_strlit("64");
        }
        match self {
            Width::Eight => "8",
            Width::Sixteen => "16",
            Width::ThirtyTwo => "32",
            Width::SixtyFour => "64",
        }
    }

    pub open spec fn label_text(self) -> Seq<char> {
        match self {
            Width::Eight => seq!['8'],
            Width::Sixteen => seq!['1', '6'],
            Width::ThirtyTwo => seq!['3', '2'],
            Width::SixtyFour => seq!['6', '4'],
        }
    }

    /// The bits of `value` this width holds, the rest cleared.
    pub fn keep(self, value: u64) -> (kept: u64)
        ensures
            kept == self.kept(value as int),
            kept == value & self.top() as u64,
            kept <= self.top(),
    {
        let mask = self.mask();
        proof {
            lemma_and_mask_is_mod(value, self);
        }
        value & mask
    }
}

impl Default for Width {
    /// A whole machine word.
    fn default() -> (width: Self)
        ensures
            width == Width::SixtyFour,
    {
        Width::SixtyFour
    }
}

/// What a width keeps of any number is a value of that width.
pub proof fn lemma_kept_within(width: Width, value: int)
    ensures
        width.kept(value) <= width.top(),
{
    vstd::arithmetic::div_mod::lemma_mod_bound(value, width.limit() as int);
}

/// What a width keeps of a number does not change when a multiple of the
/// word, two to the sixty-fourth, is added to it.
pub proof fn lemma_kept_ignores_words(width: Width, value: int, words: int)
    ensures
        width.kept(value + words * 0x1_0000_0000_0000_0000) == width.kept(value),
{
    let limit = width.limit() as int;
    let per_word: int = 0x1_0000_0000_0000_0000int / limit;
    assert(limit * per_word == 0x1_0000_0000_0000_0000);
    assert(limit * (words * per_word) == words * 0x1_0000_0000_0000_0000) by (nonlinear_arith)
        requires
            limit * per_word == 0x1_0000_0000_0000_0000,
    ;
    vstd::arithmetic::div_mod::lemma_mod_multiples_vanish(words * per_word, value, limit);
}

/// What a width keeps of a word-sized remainder is what it keeps of the
/// number itself.
pub proof fn lemma_kept_of_word(width: Width, value: int)
    ensures
        width.kept(value % 0x1_0000_0000_0000_0000) == width.kept(value),
{
    vstd::arithmetic::div_mod::lemma_fundamental_div_mod(value, 0x1_0000_0000_0000_0000);
    let words = value / 0x1_0000_0000_0000_0000;
    lemma_kept_ignores_words(width, value % 0x1_0000_0000_0000_0000, words);
    assert(value % 0x1_0000_0000_0000_0000 + words * 0x1_0000_0000_0000_0000 == value);
}

/// Clearing the bits above a width is taking the remainder by its limit.
pub proof fn lemma_and_mask_is_mod(value: u64, width: Width)
    ensures
        value & (width.top() as u64) == (value as int) % (width.limit() as int),
        value & (width.top() as u64) <= width.top(),
{
    let v = value as int;
    match width {
        Width::Eight => {
            assert(value & 0xff == value % 0x100) by (bit_vector);
            assert(v % (width.limit() as int) == v % 0x100);
        },
        Width::Sixteen => {
            assert(value & 0xffff == value % 0x1_0000) by (bit_vector);
            assert(v % (width.limit() as int) == v % 0x1_0000);
        },
        Width::ThirtyTwo => {
            assert(value & 0xffff_ffff == value % 0x1_0000_0000) by (bit_vector);
            assert(v % (width.limit() as int) == v % 0x1_0000_0000);
        },
        Width::SixtyFour => {
            assert(value & 0xffff_ffff_ffff_ffff == value) by (bit_vector);
            assert(v % (width.limit() as int) == v % 0x1_0000_0000_0000_0000);
            assert(v % 0x1_0000_0000_0000_0000 == v);
        },
    }
}

} // verus!
