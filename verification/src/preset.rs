//! The search presets: what a user asks for, and the starting region of the search that each
//! request stands for.

use vstd::arithmetic::power2::pow2;
use vstd::prelude::*;
use vstd::string::*;
use crate::double::{divide, double_of, lift, nearest_double, nearest_root, quotient, round_root};
use crate::text::{chars_of, trim, trimmed};

verus! {

/// What a search is asked to favour.
#[derive(Clone, Copy, Debug, PartialEq, Eq, Structural)]
pub enum SearchPreset {
    Fast,
    Balanced,
    Accurate,
}

/// Why no preset could be made out.
#[derive(Clone, Copy, Debug, PartialEq, Eq, Structural)]
pub enum PresetError {
    /// No preset has this name.
    UnknownName,
    /// The target recall does not lie between zero and one.
    TargetOutOfRange,
    /// The target recall is no number.
    TargetNotANumber,
}

/// A target recall as it was given: as the bits of a double, once its text has been read.
#[derive(Clone, Copy, Debug, PartialEq, Eq, Structural)]
pub enum TargetRecall {
    Unset,
    NotANumber,
    Bits(u64),
}

/// The bits of the double 1.0, which follow those of every smaller positive double.
pub const ONE: u64 = 0x3ff0_0000_0000_0000;

/// The bits of the double nearest to 91 hundredths.
pub const FAST_UP_TO: u64 = 0x3fed_1eb8_51eb_851f;

/// The bits of the double nearest to 96 hundredths.
pub const BALANCED_UP_TO: u64 = 0x3fee_b851_eb85_1eb8;

/// The bits of the negative zero.
pub const MINUS_ZERO: u64 = 0x8000_0000_0000_0000;

/// The number of rows at which the survivor floors and the probe counts were measured.
pub const REFERENCE_ROWS: u64 = 10_000_000;

/// The number of cells at which the probe counts were measured.
pub const REFERENCE_CELLS: u64 = 65_536;

/// A letter of the English alphabet in its small form; any other character as it is.
pub open spec fn small(c: char) -> char {
    if 'A' <= c <= 'Z' {
        (c as u8 + 32) as char
    } else {
        c
    }
}

/// A text with its English letters in their small form.
pub open spec fn lowered(s: Seq<char>) -> Seq<char> {
    Seq::new(s.len(), |i: int| small(s[i]))
}

/// The preset that a name stands for; case and the white space around it do not matter.
pub open spec fn preset_named(name: Seq<char>) -> Option<SearchPreset> {
    let s = lowered(trimmed(name));
    if s == "fast"@ || s == "loose"@ {
        Some(SearchPreset::Fast)
    } else if s == "balanced"@ || s == "default"@ {
        Some(SearchPreset::Balanced)
    } else if s == "accurate"@ || s == "high"@ {
        Some(SearchPreset::Accurate)
    } else {
        None
    }
}

/// The preset for a target recall, by the bits of the double: the bits of doubles from zero to
/// one rise with the doubles.
pub open spec fn preset_for(bits: u64) -> Option<SearchPreset> {
    if bits <= FAST_UP_TO || bits == MINUS_ZERO {
        Some(SearchPreset::Fast)
    } else if bits <= BALANCED_UP_TO {
        Some(SearchPreset::Balanced)
    } else if bits <= ONE {
        Some(SearchPreset::Accurate)
    } else {
        None
    }
}

/// The survivor floor at the reference number of rows, for rows of `d` coordinates.
pub open spec fn floor_at_reference(p: SearchPreset, d: usize) -> nat {
    match p {
        SearchPreset::Fast => if d <= 128 {
            250
        } else if d <= 256 {
            500
        } else if d <= 512 {
            600
        } else {
            250
        },
        SearchPreset::Balanced => if d <= 128 {
            450
        } else if d <= 256 {
            1000
        } else if d <= 512 {
            1200
        } else {
            500
        },
        SearchPreset::Accurate => if d <= 128 {
            1800
        } else if d <= 256 {
            3000
        } else if d <= 512 {
            2500
        } else {
            1000
        },
    }
}

/// The double nearest to the square root of `n / 10,000,000`, in units of `1 / 2^53`, for `n`
/// between a quarter of that number and all of it.
pub open spec fn root_scale(n: nat) -> nat {
    let den = REFERENCE_ROWS as nat;
    nearest_root(quotient(n, den) * pow2((106 - lift(n, den)) as nat))
}

/// A survivor floor for `n` rows: it grows with their square root from one half at a quarter of
/// the reference number of rows up to all of it there, and stays at least 128.
pub open spec fn scaled_floor(floor: nat, n: nat) -> nat {
    let scaled = if n >= REFERENCE_ROWS {
        floor
    } else if 4 * n <= REFERENCE_ROWS {
        (floor + 1) / 2
    } else {
        let product = double_of(floor * root_scale(n));
        (2 * product + 0x20_0000_0000_0000) / 0x40_0000_0000_0000
    };
    if scaled < 128 {
        128
    } else {
        scaled
    }
}

/// The probe count at the centre of the ladder at the reference number of cells.
pub open spec fn probes_at_reference(p: SearchPreset, d: usize) -> nat {
    match p {
        SearchPreset::Fast => if d <= 128 {
            8
        } else {
            32
        },
        SearchPreset::Balanced => if d <= 128 {
            8
        } else if d <= 256 {
            40
        } else {
            64
        },
        SearchPreset::Accurate => if d <= 128 {
            32
        } else if d <= 256 {
            128
        } else if d <= 512 {
            256
        } else {
            160
        },
    }
}

/// The least whole number that is not below `num / den`.
pub open spec fn ceiling(num: nat, den: nat) -> nat {
    (num + den - 1) as nat / den
}

/// The probe count at the reference, scaled to `n_cells` cells and, above the reference number of
/// rows, to the same number of scanned rows; each step rounded to a double, then up.
pub open spec fn scaled_probes(reference: nat, n_cells: nat, n_rows: nat) -> nat {
    let probes = double_of(reference * double_of(n_cells));
    let rows = double_of(n_rows);
    if rows <= REFERENCE_ROWS {
        ceiling(probes, REFERENCE_CELLS as nat)
    } else {
        ceiling(
            double_of(probes * quotient(REFERENCE_ROWS as nat, rows)),
            REFERENCE_CELLS as nat * pow2(lift(REFERENCE_ROWS as nat, rows)),
        )
    }
}

/// The smaller of two numbers.
pub open spec fn least(a: nat, b: nat) -> nat {
    if a < b {
        a
    } else {
        b
    }
}

/// The larger of two numbers.
pub open spec fn most(a: nat, b: nat) -> nat {
    if a < b {
        b
    } else {
        a
    }
}

/// The probe count at the centre of the ladder: at least one cell and no more than there are.
pub open spec fn ladder_centre(p: SearchPreset, d: usize, n_cells: nat, n_rows: nat) -> nat {
    least(most(scaled_probes(probes_at_reference(p, d), n_cells, n_rows), 1), most(n_cells, 1))
}

/// A sequence without the entries that repeat the one before them.
pub open spec fn without_repeats(s: Seq<usize>) -> Seq<usize>
    decreases s.len(),
{
    if s.len() == 0 {
        s
    } else {
        let before = without_repeats(s.drop_last());
        if before.len() > 0 && before.last() == s.last() {
            before
        } else {
            before.push(s.last())
        }
    }
}

/// The rungs around a centre: half of it, itself, twice and four times it, within the cells.
pub open spec fn rungs(centre: nat, n_cells: nat) -> Seq<usize> {
    seq![
        most(centre / 2, 1) as usize,
        centre as usize,
        least(2 * centre, most(n_cells, 1)) as usize,
        least(4 * centre, most(n_cells, 1)) as usize,
    ]
}

/// The ladder of probe counts that a search tries by default.
pub open spec fn ladder(p: SearchPreset, d: usize, n_cells: usize, n_rows: usize) -> Seq<usize> {
    without_repeats(rungs(ladder_centre(p, d, n_cells as nat, n_rows as nat), n_cells as nat))
}

/// True where every entry lies above the one before it.
pub open spec fn rising(s: Seq<usize>) -> bool {
    forall|i: int, j: int| 0 <= i < j < s.len() ==> #[trigger] s[i] < #[trigger] s[j]
}

proof fn lemma_without_repeats(s: Seq<usize>)
    requires
        forall|i: int, j: int| 0 <= i <= j < s.len() ==> #[trigger] s[i] <= #[trigger] s[j],
    ensures
        rising(without_repeats(s)),
        s.len() > 0 ==> without_repeats(s).len() > 0 && without_repeats(s).last() == s.last(),
        forall|i: int|
            0 <= i < without_repeats(s).len() ==> s.contains(#[trigger] without_repeats(s)[i]),
        forall|i: int| 0 <= i < s.len() ==> without_repeats(s).contains(#[trigger] s[i]),
    decreases s.len(),
{
    if s.len() > 0 {
        let t = s.drop_last();
        lemma_without_repeats(t);
        let before = without_repeats(t);
        let after = without_repeats(s);
        assert forall|i: int| 0 <= i < after.len() implies s.contains(#[trigger] after[i]) by {
            if i < before.len() {
                assert(t.contains(before[i]));
                let j = choose|j: int| 0 <= j < t.len() && t[j] == before[i];
                assert(s[j] == after[i]);
            } else {
                assert(s[s.len() - 1] == after[i]);
            }
        }
        assert forall|i: int| 0 <= i < s.len() implies after.contains(#[trigger] s[i]) by {
            if i < t.len() {
                assert(before.contains(t[i]));
                let j = choose|j: int| 0 <= j < before.len() && before[j] == t[i];
                assert(after[j] == s[i]);
            } else {
                assert(after[after.len() - 1] == s[i]);
            }
        }
        if t.len() > 0 {
            assert(before.last() == t.last());
            assert(t.last() == s[s.len() - 2]);
            assert forall|i: int, j: int| 0 <= i < j < after.len() implies #[trigger] after[i]
                < #[trigger] after[j] by {
                if j == before.len() {
                    assert(before[i] <= before.last());
                }
            }
        }
    }
}

/// The default ladder rises from rung to rung, has a rung, holds the centre, and asks for at least
/// one cell and never for more than there are.
pub proof fn law_ladder_rises(p: SearchPreset, d: usize, n_cells: usize, n_rows: usize)
    ensures
        rising(ladder(p, d, n_cells, n_rows)),
        0 < ladder(p, d, n_cells, n_rows).len() <= 4,
        ladder(p, d, n_cells, n_rows).contains(
            ladder_centre(p, d, n_cells as nat, n_rows as nat) as usize,
        ),
        forall|i: int|
            0 <= i < ladder(p, d, n_cells, n_rows).len() ==> 1 <= #[trigger] ladder(
                p,
                d,
                n_cells,
                n_rows,
            )[i] <= most(n_cells as nat, 1),
{
    let centre = ladder_centre(p, d, n_cells as nat, n_rows as nat);
    let s = rungs(centre, n_cells as nat);
    lemma_without_repeats(s);
    assert(s[1] == centre as usize);
    reveal_with_fuel(without_repeats, 5);
    let l = ladder(p, d, n_cells, n_rows);
    assert forall|i: int| 0 <= i < l.len() implies 1 <= #[trigger] l[i] <= most(
        n_cells as nat,
        1,
    ) by {
        assert(s.contains(l[i]));
    }
}

/// The more accurate of two presets never looks at fewer candidates: each of its knobs is at least
/// as large.
pub proof fn law_presets_are_ordered(d: usize)
    ensures
        floor_at_reference(SearchPreset::Fast, d) <= floor_at_reference(SearchPreset::Balanced, d)
            <= floor_at_reference(SearchPreset::Accurate, d),
        probes_at_reference(SearchPreset::Fast, d) <= probes_at_reference(SearchPreset::Balanced, d)
            <= probes_at_reference(SearchPreset::Accurate, d),
{
}

fn same(s: &Vec<char>, word: &str) -> (r: bool)
    ensures
        r == (s@ == word@),
{
    let n: usize = word.unicode_len();
    if s.len() != n {
        return false;
    }
    let mut i: usize = 0;
    while i < n
        invariant
            i <= n,
            n == word@.len(),
            s@.len() == n,
            forall|j: int| 0 <= j < i ==> s@[j] == word@[j],
        decreases n - i,
    {
        if s[i] != word.get_char(i) {
            return false;
        }
        i = i + 1;
    }
    assert(s@ =~= word@);
    true
}

fn lower(s: &Vec<char>) -> (r: Vec<char>)
    ensures
        r@ == lowered(s@),
{
    let n: usize = s.len();
    let mut out: Vec<char> = Vec::new();
    let mut i: usize = 0;
    while i < n
        invariant
            i <= n,
            n == s@.len(),
            out@.len() == i,
            forall|j: int| 0 <= j < i ==> out@[j] == small(s@[j]),
        decreases n - i,
    {
        let c: char = s[i];
        if 'A' <= c && c <= 'Z' {
            out.push((c as u8 + 32) as char);
        } else {
            out.push(c);
        }
        i = i + 1;
    }
    out
}

/// The survivor floor between a quarter of the reference number of rows and all of it.
fn between(floor: usize, n: usize) -> (r: usize)
    requires
        floor <= 3000,
        REFERENCE_ROWS < 4 * n,
        n < REFERENCE_ROWS,
    ensures
        r == (2 * double_of(floor as nat * root_scale(n as nat)) + 0x20_0000_0000_0000)
            / 0x40_0000_0000_0000,
{
    let (part, unit) = divide(n as u64, REFERENCE_ROWS as u128);
    let whole: u128 = 0x400_0000_0000_0000_0000_0000_0000;
    let ghost e = lift(n as nat, REFERENCE_ROWS as nat);
    proof {
        vstd::arithmetic::power2::lemma2_to64();
        vstd::arithmetic::power2::lemma2_to64_rest();
        assert(0x10_0000_0000_0000 <= unit) by (nonlinear_arith)
            requires
                0x10_0000_0000_0000 * REFERENCE_ROWS <= n * unit,
                n < REFERENCE_ROWS,
        ;
        assert(unit < 0x80_0000_0000_0000) by (nonlinear_arith)
            requires
                n * unit < 0x20_0000_0000_0000 * REFERENCE_ROWS,
                REFERENCE_ROWS < 4 * n,
        ;
        if e > 55 {
            vstd::arithmetic::power2::lemma_pow2_strictly_increases(55, e);
        }
        vstd::arithmetic::power2::lemma_pow2_adds(53, 53);
        assert(0x20_0000_0000_0000 * 0x20_0000_0000_0000
            == 0x400_0000_0000_0000_0000_0000_0000) by (nonlinear_arith);
        assert(whole == pow2(106));
        vstd::arithmetic::power2::lemma_pow2_adds((106 - e) as nat, e);
        assert(whole as int / unit as int == pow2((106 - e) as nat)) by (nonlinear_arith)
            requires
                whole == pow2((106 - e) as nat) * pow2(e),
                unit == pow2(e),
                unit > 0,
        ;
        assert(whole as int / unit as int <= 0x40_0000_0000_0000) by (nonlinear_arith)
            requires
                whole == 0x400_0000_0000_0000_0000_0000_0000,
                unit >= 0x10_0000_0000_0000,
        ;
        assert(part * (whole as int / unit as int) <= 0x20_0000_0000_0000 * 0x40_0000_0000_0000)
            by (nonlinear_arith)
            requires
                part <= 0x20_0000_0000_0000,
                0 <= whole as int / unit as int <= 0x40_0000_0000_0000,
        ;
    }
    let scale: u128 = round_root(part * (whole / unit));
    assert(floor * scale <= 3000 * 0x80_0000_0000_0000) by (nonlinear_arith)
        requires
            floor <= 3000,
            scale <= 0x80_0000_0000_0000,
    ;
    let product: u128 = nearest_double(floor as u128 * scale);
    ((2 * product + 0x20_0000_0000_0000) / 0x40_0000_0000_0000) as usize
}

impl SearchPreset {
    /// The preset's name.
    pub fn name(self) -> (r: &'static str)
        ensures
            r@ == (match self {
                SearchPreset::Fast => "fast"@,
                SearchPreset::Balanced => "balanced"@,
                SearchPreset::Accurate => "accurate"@,
            }),
    {
        match self {
            SearchPreset::Fast => "fast",
            SearchPreset::Balanced => "balanced",
            SearchPreset::Accurate => "accurate",
        }
    }

    /// The preset that a name or one of its aliases stands for.
    pub fn parse(value: &str) -> (r: Result<SearchPreset, PresetError>)
        ensures
            r == (match preset_named(value@) {
                Some(p) => Ok::<SearchPreset, PresetError>(p),
                None => Err(PresetError::UnknownName),
            }),
    {
        let chars: Vec<char> = chars_of(value);
        let bare: Vec<char> = trim(chars.as_slice());
        let word: Vec<char> = lower(&bare);
        if same(&word, "fast") || same(&word, "loose") {
            Ok(SearchPreset::Fast)
        } else if same(&word, "balanced") || same(&word, "default") {
            Ok(SearchPreset::Balanced)
        } else if same(&word, "accurate") || same(&word, "high") {
            Ok(SearchPreset::Accurate)
        } else {
            Err(PresetError::UnknownName)
        }
    }

    /// The preset for a target recall, given as the bits of a double: fast up to 0.91, balanced up
    /// to 0.96, accurate up to one.
    pub fn from_target(bits: u64) -> (r: Result<SearchPreset, PresetError>)
        ensures
            r == (match preset_for(bits) {
                Some(p) => Ok::<SearchPreset, PresetError>(p),
                None => Err(PresetError::TargetOutOfRange),
            }),
    {
        if bits <= FAST_UP_TO || bits == MINUS_ZERO {
            Ok(SearchPreset::Fast)
        } else if bits <= BALANCED_UP_TO {
            Ok(SearchPreset::Balanced)
        } else if bits <= ONE {
            Ok(SearchPreset::Accurate)
        } else {
            Err(PresetError::TargetOutOfRange)
        }
    }

    /// How many hops a graph search takes.
    pub fn graph_hops(self) -> (r: usize)
        ensures
            r == (match self {
                SearchPreset::Fast => 1usize,
                SearchPreset::Balanced => 2usize,
                SearchPreset::Accurate => 3usize,
            }),
    {
        match self {
            SearchPreset::Fast => 1,
            SearchPreset::Balanced => 2,
            SearchPreset::Accurate => 3,
        }
    }

    /// How many nodes a graph search expands.
    pub fn graph_m(self) -> (r: usize)
        ensures
            r == (match self {
                SearchPreset::Fast => 16usize,
                SearchPreset::Balanced => 24usize,
                SearchPreset::Accurate => 48usize,
            }),
    {
        match self {
            SearchPreset::Fast => 16,
            SearchPreset::Balanced => 24,
            SearchPreset::Accurate => 48,
        }
    }

    /// How many survivors the integer stage leaves for the exact order; the dimension does not
    /// matter.
    pub fn cascade_k(self, _d: usize) -> (r: usize)
        ensures
            r == (match self {
                SearchPreset::Fast => 16usize,
                SearchPreset::Balanced => 20usize,
                SearchPreset::Accurate => 48usize,
            }),
    {
        match self {
            SearchPreset::Fast => 16,
            SearchPreset::Balanced => 20,
            SearchPreset::Accurate => 48,
        }
    }

    /// The survivor floor at the reference number of rows.
    pub fn survivor_floor_10m(self, d: usize) -> (r: usize)
        ensures
            r == floor_at_reference(self, d),
            250 <= r <= 3000,
    {
        match self {
            SearchPreset::Fast => if d <= 128 {
                250
            } else if d <= 256 {
                500
            } else if d <= 512 {
                600
            } else {
                250
            },
            SearchPreset::Balanced => if d <= 128 {
                450
            } else if d <= 256 {
                1000
            } else if d <= 512 {
                1200
            } else {
                500
            },
            SearchPreset::Accurate => if d <= 128 {
                1800
            } else if d <= 256 {
                3000
            } else if d <= 512 {
                2500
            } else {
                1000
            },
        }
    }

    /// The survivor floor for `n` rows of `d` coordinates.
    pub fn survivor_floor(self, n: usize, d: usize) -> (r: usize)
        ensures
            r == scaled_floor(floor_at_reference(self, d), n as nat),
            128 <= r,
    {
        let floor: usize = self.survivor_floor_10m(d);
        let scaled: usize = if n as u64 >= REFERENCE_ROWS {
            floor
        } else if n as u64 <= REFERENCE_ROWS / 4 {
            (floor + 1) / 2
        } else {
            between(floor, n)
        };
        if scaled < 128 {
            128
        } else {
            scaled
        }
    }

    /// The probe count at the centre of the ladder at the reference number of cells.
    pub fn reference_probes(self, d: usize) -> (r: usize)
        ensures
            r == probes_at_reference(self, d),
            8 <= r <= 256,
    {
        match self {
            SearchPreset::Fast => if d <= 128 {
                8
            } else {
                32
            },
            SearchPreset::Balanced => if d <= 128 {
                8
            } else if d <= 256 {
                40
            } else {
                64
            },
            SearchPreset::Accurate => if d <= 128 {
                32
            } else if d <= 256 {
                128
            } else if d <= 512 {
                256
            } else {
                160
            },
        }
    }
}

/// The preset of a search and where it came from: a name goes before a target recall, and where
/// neither is given the search is balanced.
pub fn resolve_search_preset(preset: Option<&str>, target: TargetRecall) -> (r: Result<
    (SearchPreset, &'static str),
    PresetError,
>)
    ensures
        match preset {
            Some(name) => match preset_named(name@) {
                Some(p) => r matches Ok(found) && found.0 == p && found.1@ == "SBANN_PRESET"@,
                None => r matches Err(e) && e == PresetError::UnknownName,
            },
            None => match target {
                TargetRecall::Unset => r matches Ok(found) && found.0 == SearchPreset::Balanced
                    && found.1@ == "default"@,
                TargetRecall::NotANumber => r matches Err(e) && e == PresetError::TargetNotANumber,
                TargetRecall::Bits(bits) => match preset_for(bits) {
                    Some(p) => r matches Ok(found) && found.0 == p && found.1@
                        == "SBANN_TARGET_RECALL"@,
                    None => r matches Err(e) && e == PresetError::TargetOutOfRange,
                },
            },
        },
{
    match preset {
        Some(name) => match SearchPreset::parse(name) {
            Ok(p) => Ok((p, "SBANN_PRESET")),
            Err(e) => Err(e),
        },
        None => match target {
            TargetRecall::Unset => Ok((SearchPreset::Balanced, "default")),
            TargetRecall::NotANumber => Err(PresetError::TargetNotANumber),
            TargetRecall::Bits(bits) => match SearchPreset::from_target(bits) {
                Ok(p) => Ok((p, "SBANN_TARGET_RECALL")),
                Err(e) => Err(e),
            },
        },
    }
}

/// The scaled probe count, before it is held to the number of cells.
fn probes_for(reference: usize, n_cells: usize, n_rows: usize) -> (r: u128)
    requires
        reference <= 256,
    ensures
        r == scaled_probes(reference as nat, n_cells as nat, n_rows as nat),
{
    let cells: u128 = nearest_double(n_cells as u128);
    assert(reference * cells <= 256 * cells) by (nonlinear_arith)
        requires
            reference <= 256,
            cells >= 0,
    ;
    let probes: u128 = nearest_double(reference as u128 * cells);
    let rows: u128 = nearest_double(n_rows as u128);
    if rows <= REFERENCE_ROWS as u128 {
        (probes + (REFERENCE_CELLS as u128 - 1)) / REFERENCE_CELLS as u128
    } else {
        let (part, unit) = divide(REFERENCE_ROWS, rows);
        assert(unit < 0x1_0000_0000_0000_0000_0000_0000int) by (nonlinear_arith)
            requires
                REFERENCE_ROWS * unit < 0x20_0000_0000_0000 * rows,
                rows <= 0x2_0000_0000_0000_0000,
        ;
        assert(probes * part < 0x8000_0000_0000_0000_0000_0000_0000_0000) by (nonlinear_arith)
            requires
                probes <= 0x240_0000_0000_0000_0000,
                part <= 0x20_0000_0000_0000,
        ;
        assert(unit >= 1) by (nonlinear_arith)
            requires
                0x10_0000_0000_0000 * rows <= REFERENCE_ROWS * unit,
                rows > REFERENCE_ROWS,
        ;
        let product: u128 = nearest_double(probes * part);
        assert(product <= 0xc000_0000_0000_0000_0000_0000_0000_0000);
        let den: u128 = REFERENCE_CELLS as u128 * unit;
        (product + (den - 1)) / den
    }
}

/// The ladder of probe counts that a search tries by default.
pub fn default_probe_ladder(preset: SearchPreset, d: usize, n_cells: usize, n_rows: usize) -> (r: Vec<
    usize,
>)
    ensures
        r@ == ladder(preset, d, n_cells, n_rows),
{
    let reference: usize = preset.reference_probes(d);
    let wide: u128 = probes_for(reference, n_cells, n_rows);
    let cells: usize = if n_cells > 1 {
        n_cells
    } else {
        1
    };
    let centre: usize = if wide < 1 {
        1
    } else if wide < cells as u128 {
        wide as usize
    } else {
        cells
    };
    assert(centre == ladder_centre(preset, d, n_cells as nat, n_rows as nat));
    let mut all: Vec<usize> = Vec::new();
    all.push(
        if centre / 2 > 1 {
            centre / 2
        } else {
            1
        },
    );
    all.push(centre);
    all.push(
        if centre <= cells / 2 {
            centre * 2
        } else {
            cells
        },
    );
    all.push(
        if centre <= cells / 4 {
            centre * 4
        } else {
            cells
        },
    );
    assert(all@ =~= rungs(centre as nat, n_cells as nat));
    let mut out: Vec<usize> = Vec::new();
    let mut i: usize = 0;
    assert(all@.take(0) =~= Seq::<usize>::empty());
    while i < 4
        invariant
            i <= 4,
            all@.len() == 4,
            out@ == without_repeats(all@.take(i as int)),
        decreases 4 - i,
    {
        assert(all@.take(i + 1).drop_last() =~= all@.take(i as int));
        let v: usize = all[i];
        let n: usize = out.len();
        if n == 0 || out[n - 1] != v {
            out.push(v);
        }
        i = i + 1;
    }
    assert(all@.take(4) =~= all@);
    out
}

} // verus!
