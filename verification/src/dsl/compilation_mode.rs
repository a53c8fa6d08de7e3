use vstd::prelude::*;

use std::ops::{Add, BitAnd, Not, Sub};

use vstd::std_specs::convert::FromSpecImpl;
use vstd::std_specs::ops::{AddSpec, AddSpecImpl, BitAndSpecImpl, NotSpecImpl, SubSpec, SubSpecImpl};

verus! {

/// How strictly a context treats expressions that no output uses.
#[derive(Clone, Copy, Debug)]
pub enum CompilationMode {
    /// Unused expressions are dropped silently.
    Loose,
    /// Unused inputs, constants and operations all prevent compilation.
    StrictAll,
    /// The categories named by the flags prevent compilation when unused.
    Strict(Strictness),
}

impl Default for CompilationMode {
    /// Strict on all unused expressions.
    fn default() -> (m: Self)
        ensures
            m == CompilationMode::StrictAll,
    {
        CompilationMode::StrictAll
    }
}

impl CompilationMode {
    pub fn with(strictness: Strictness) -> (m: Self)
        ensures
            m == CompilationMode::Strict(strictness),
    {
        CompilationMode::Strict(strictness)
    }
}

/// A category of expressions.
#[derive(Clone, Copy, Debug, Default, PartialEq, Eq, Structural)]
pub enum StrictnessOn {
    #[default]
    Input,
    Const,
    Op,
}

/// Flags, one bit per category: bit 0 for inputs, bit 1 for constants, bit 2 for operations.
/// `+` includes categories, `-` excludes them.
#[derive(Clone, Copy, Debug, Default, PartialEq, Eq, Structural)]
pub struct Strictness(pub u8);

/// The flag of a category.
pub open spec fn flag_of(on: StrictnessOn) -> u8 {
    match on {
        StrictnessOn::Input => 1,
        StrictnessOn::Const => 2,
        StrictnessOn::Op => 4,
    }
}

/// The flags of all three categories.
pub open spec fn all_flags() -> u8 {
    7
}

/// The strictness a compilation mode stands for.
pub open spec fn mode_flags(mode: CompilationMode) -> Strictness {
    match mode {
        CompilationMode::Loose => Strictness(0),
        CompilationMode::StrictAll => Strictness(all_flags()),
        CompilationMode::Strict(s) => s,
    }
}

/// The flags of a list of categories, combined.
pub open spec fn flags_of_list(list: Seq<StrictnessOn>) -> u8
    decreases list.len(),
{
    if list.len() == 0 {
        0
    } else {
        flags_of_list(list.drop_last()) | flag_of(list.last())
    }
}

/// The compilation mode of a strictness: `Loose` with no flag, `StrictAll` with the flags of all
/// three categories, else `Strict` with exactly the flags given.
pub open spec fn mode_of(v: Strictness) -> CompilationMode {
    if v.0 == 0 {
        CompilationMode::Loose
    } else if v.0 == all_flags() {
        CompilationMode::StrictAll
    } else {
        CompilationMode::Strict(v)
    }
}

/// Two strictnesses share a category.
pub open spec fn shares(a: Strictness, b: Strictness) -> bool {
    a.0 & b.0 > 0
}

impl From<&StrictnessOn> for Strictness {
    fn from(value: &StrictnessOn) -> (s: Self) {
        let u: u8 = match value {
            StrictnessOn::Input => 1,
            StrictnessOn::Const => 2,
            StrictnessOn::Op => 4,
        };
        Strictness(u)
    }
}

impl FromSpecImpl<&StrictnessOn> for Strictness {
    open spec fn obeys_from_spec() -> bool {
        true
    }

    open spec fn from_spec(v: &StrictnessOn) -> Strictness {
        Strictness(flag_of(*v))
    }
}

impl From<StrictnessOn> for Strictness {
    fn from(value: StrictnessOn) -> (s: Self) {
        Self::from(&value)
    }
}

impl FromSpecImpl<StrictnessOn> for Strictness {
    open spec fn obeys_from_spec() -> bool {
        true
    }

    open spec fn from_spec(v: StrictnessOn) -> Strictness {
        Strictness(flag_of(v))
    }
}

impl From<&[StrictnessOn]> for Strictness {
    fn from(value: &[StrictnessOn]) -> (s: Self) {
        let mut combined = Strictness(0);
        let mut i: usize = 0;
        while i < value.len()
            invariant
                i <= value@.len(),
                combined.0 == flags_of_list(value@.take(i as int)),
            decreases value@.len() - i,
        {
            assert(value@.take(i as int + 1).drop_last() =~= value@.take(i as int));
            combined = combined + Strictness::from(&value[i]);
            i = i + 1;
        }
        assert(value@.take(value@.len() as int) =~= value@);
        combined
    }
}

impl FromSpecImpl<&[StrictnessOn]> for Strictness {
    open spec fn obeys_from_spec() -> bool {
        true
    }

    open spec fn from_spec(v: &[StrictnessOn]) -> Strictness {
        Strictness(flags_of_list(v@))
    }
}

/// The strictness on inputs, constants and operations.
fn all_categories() -> (s: Strictness)
    ensures
        s.0 == all_flags(),
{
    let all = vec![StrictnessOn::Input, StrictnessOn::Const, StrictnessOn::Op];
    let s = Strictness::from(all.as_slice());
    assert(flags_of_list(all@) == all_flags()) by {
        reveal_with_fuel(flags_of_list, 4);
        assert(all@.drop_last().drop_last().drop_last() =~= Seq::<StrictnessOn>::empty());
        assert(all@.drop_last().drop_last() =~= seq![StrictnessOn::Input]);
        assert(all@.drop_last() =~= seq![StrictnessOn::Input, StrictnessOn::Const]);
        assert(0u8 | 1u8 == 1u8) by (bit_vector);
        assert(1u8 | 2u8 == 3u8) by (bit_vector);
        assert(3u8 | 4u8 == 7u8) by (bit_vector);
    }
    s
}

impl From<&CompilationMode> for Strictness {
    fn from(value: &CompilationMode) -> (s: Self) {
        match value {
            CompilationMode::Loose => Strictness(0),
            CompilationMode::StrictAll => {
                all_categories()
            },
            CompilationMode::Strict(strictness) => *strictness,
        }
    }
}

impl FromSpecImpl<&CompilationMode> for Strictness {
    open spec fn obeys_from_spec() -> bool {
        true
    }

    open spec fn from_spec(v: &CompilationMode) -> Strictness {
        mode_flags(*v)
    }
}

impl From<Strictness> for CompilationMode {
    /// No flag gives `Loose`; the flags of all three categories give `StrictAll`; other flags
    /// give `Strict` with exactly those flags.
    fn from(value: Strictness) -> (m: Self) {
        if value.0 == 0 {
            CompilationMode::Loose
        } else {
            let every = all_categories();
            if value.0 == every.0 {
                CompilationMode::StrictAll
            } else {
                CompilationMode::Strict(value)
            }
        }
    }
}

impl FromSpecImpl<Strictness> for CompilationMode {
    open spec fn obeys_from_spec() -> bool {
        true
    }

    open spec fn from_spec(v: Strictness) -> CompilationMode {
        mode_of(v)
    }
}

impl Add for Strictness {
    type Output = Self;

    /// Includes the categories of both.
    fn add(self, rhs: Self) -> (s: Self)
        ensures
            forall|on: StrictnessOn|
                #[trigger] shares(s, Strictness(flag_of(on))) <==> (shares(self, Strictness(flag_of(on))) || shares(
                    rhs,
                    Strictness(flag_of(on)),
                )),
    {
        let or = self.0 | rhs.0;
        proof {
            assert forall|on: StrictnessOn|
                #[trigger] shares(Strictness(or), Strictness(flag_of(on))) <==> (shares(self, Strictness(flag_of(on)))
                    || shares(rhs, Strictness(flag_of(on)))) by {
                lemma_strictness_algebra(self, rhs, on);
            }
        }
        Strictness(or)
    }
}

impl AddSpecImpl for Strictness {
    open spec fn obeys_add_spec() -> bool {
        true
    }

    open spec fn add_req(self, rhs: Strictness) -> bool {
        true
    }

    open spec fn add_spec(self, rhs: Strictness) -> Strictness {
        Strictness(self.0 | rhs.0)
    }
}

impl Strictness {
    /// Includes the categories of `rhs`.
    pub fn add_assign(&mut self, rhs: Self)
        ensures
            final(self).0 == old(self).0 | rhs.0,
            forall|on: StrictnessOn|
                #[trigger] shares(*final(self), Strictness(flag_of(on))) <==> (shares(*old(self), Strictness(flag_of(on)))
                    || shares(rhs, Strictness(flag_of(on)))),
    {
        let ghost before = *self;
        self.0 = self.0 | rhs.0;
        proof {
            assert forall|on: StrictnessOn|
                #[trigger] shares(*self, Strictness(flag_of(on))) <==> (shares(before, Strictness(flag_of(on))) || shares(
                    rhs,
                    Strictness(flag_of(on)),
                )) by {
                lemma_strictness_algebra(before, rhs, on);
            }
        }
    }
}

impl Sub for Strictness {
    type Output = Self;

    /// Excludes the categories of `rhs`.
    fn sub(self, rhs: Self) -> (s: Self)
        ensures
            forall|on: StrictnessOn|
                #[trigger] shares(s, Strictness(flag_of(on))) <==> (shares(self, Strictness(flag_of(on))) && !shares(
                    rhs,
                    Strictness(flag_of(on)),
                )),
    {
        let and = self.0 & !rhs.0;
        proof {
            assert forall|on: StrictnessOn|
                #[trigger] shares(Strictness(and), Strictness(flag_of(on))) <==> (shares(self, Strictness(flag_of(on)))
                    && !shares(rhs, Strictness(flag_of(on)))) by {
                lemma_strictness_algebra(self, rhs, on);
            }
        }
        Strictness(and)
    }
}

impl SubSpecImpl for Strictness {
    open spec fn obeys_sub_spec() -> bool {
        true
    }

    open spec fn sub_req(self, rhs: Strictness) -> bool {
        true
    }

    open spec fn sub_spec(self, rhs: Strictness) -> Strictness {
        Strictness(self.0 & !rhs.0)
    }
}

impl Not for Strictness {
    type Output = Self;

    fn not(self) -> (s: Self) {
        Strictness(!self.0)
    }
}

impl NotSpecImpl for Strictness {
    open spec fn obeys_not_spec() -> bool {
        true
    }

    open spec fn not_req(self) -> bool {
        true
    }

    open spec fn not_spec(self) -> Strictness {
        Strictness(!self.0)
    }
}

impl BitAnd for &Strictness {
    type Output = bool;

    /// Whether the two share a category.
    fn bitand(self, rhs: Self) -> (b: bool) {
        (self.0 & rhs.0) > 0
    }
}

impl BitAndSpecImpl for &Strictness {
    open spec fn obeys_bitand_spec() -> bool {
        true
    }

    open spec fn bitand_req(self, rhs: &Strictness) -> bool {
        true
    }

    open spec fn bitand_spec(self, rhs: &Strictness) -> bool {
        shares(*self, *rhs)
    }
}

impl BitAnd for Strictness {
    type Output = bool;

    fn bitand(self, rhs: Self) -> (b: bool) {
        (&self).bitand(&rhs)
    }
}

impl BitAndSpecImpl for Strictness {
    open spec fn obeys_bitand_spec() -> bool {
        true
    }

    open spec fn bitand_req(self, rhs: Strictness) -> bool {
        true
    }

    open spec fn bitand_spec(self, rhs: Strictness) -> bool {
        shares(self, rhs)
    }
}

/// A strictness turned into a compilation mode and back is the strictness it was.
pub proof fn lemma_mode_round_trip(s: Strictness)
    ensures
        mode_flags(mode_of(s)) == s,
{
}

/// `+` is strict on a category exactly when either side is; `-` is strict on a category exactly
/// when its left side is and its right side is not.
pub proof fn lemma_strictness_algebra(a: Strictness, b: Strictness, on: StrictnessOn)
    ensures
        shares(Strictness(a.0 | b.0), Strictness(flag_of(on))) <==> (shares(a, Strictness(flag_of(on))) || shares(
            b,
            Strictness(flag_of(on)),
        )),
        shares(Strictness(a.0 & !b.0), Strictness(flag_of(on))) <==> (shares(a, Strictness(flag_of(on))) && !shares(
            b,
            Strictness(flag_of(on)),
        )),
{
    let x = a.0;
    let y = b.0;
    match on {
        StrictnessOn::Input => {
            assert(((x | y) & 1u8 > 0) <==> (x & 1u8 > 0 || y & 1u8 > 0)) by (bit_vector);
            assert(((x & !y) & 1u8 > 0) <==> (x & 1u8 > 0 && !(y & 1u8 > 0))) by (bit_vector);
        },
        StrictnessOn::Const => {
            assert(((x | y) & 2u8 > 0) <==> (x & 2u8 > 0 || y & 2u8 > 0)) by (bit_vector);
            assert(((x & !y) & 2u8 > 0) <==> (x & 2u8 > 0 && !(y & 2u8 > 0))) by (bit_vector);
        },
        StrictnessOn::Op => {
            assert(((x | y) & 4u8 > 0) <==> (x & 4u8 > 0 || y & 4u8 > 0)) by (bit_vector);
            assert(((x & !y) & 4u8 > 0) <==> (x & 4u8 > 0 && !(y & 4u8 > 0))) by (bit_vector);
        },
    }
}

/// Through the operators: `a + b` is strict on a category exactly when `a` or `b` is, and
/// `a - b` exactly when `a` is and `b` is not.
pub proof fn lemma_operators_on_categories(a: Strictness, b: Strictness, on: StrictnessOn)
    ensures
        shares(AddSpec::add_spec(a, b), Strictness(flag_of(on))) <==> (shares(a, Strictness(flag_of(on))) || shares(
            b,
            Strictness(flag_of(on)),
        )),
        shares(SubSpec::sub_spec(a, b), Strictness(flag_of(on))) <==> (shares(a, Strictness(flag_of(on))) && !shares(
            b,
            Strictness(flag_of(on)),
        )),
{
    lemma_strictness_algebra(a, b, on);
}

/// The strictness of a list of categories is strict on exactly the categories listed.
pub proof fn lemma_list_strictness(list: Seq<StrictnessOn>, on: StrictnessOn)
    ensures
        shares(Strictness(flags_of_list(list)), Strictness(flag_of(on))) <==> list.contains(on),
    decreases list.len(),
{
    if list.len() == 0 {
        let f = flag_of(on);
        assert(0u8 & f == 0) by (bit_vector);
    } else {
        lemma_list_strictness(list.drop_last(), on);
        lemma_strictness_algebra(Strictness(flags_of_list(list.drop_last())), Strictness(flag_of(list.last())), on);
        let a = flag_of(list.last());
        let b = flag_of(on);
        assert((a == 1u8 || a == 2u8 || a == 4u8) && (b == 1u8 || b == 2u8 || b == 4u8) ==> ((a & b > 0) <==> a
            == b)) by (bit_vector);
        assert(list.contains(on) <==> (list.drop_last().contains(on) || list.last() == on)) by {
            if list.contains(on) {
                let k = choose|k: int| 0 <= k < list.len() && list[k] == on;
                if k < list.len() - 1 {
                    assert(list.drop_last()[k] == on);
                }
            }
            if list.drop_last().contains(on) {
                let k = choose|k: int| 0 <= k < list.drop_last().len() && list.drop_last()[k] == on;
                assert(list[k] == on);
            }
            if list.last() == on {
                assert(list[list.len() - 1] == on);
            }
        }
    }
}

} // verus!
