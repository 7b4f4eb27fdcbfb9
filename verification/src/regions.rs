//! The closed set of regions: an ordered list of names, each bound to the
//! identifier that is its place in the list, counted from 1. Identifier 0
//! is no region's: it stands for the code outside every region.

use crate::profiler::{enter_region, open_scope, ProfileScope, Profiler, SLOT_COUNT};
use vstd::prelude::*;
use vstd::string::StringSliceAdditionalSpecFns;

verus! {

/// Why a table of regions was not made, or gave no answer.
#[derive(Clone, Copy, Debug, PartialEq, Eq, Structural)]
pub enum RegionError {
    /// No region has this identifier or this name.
    NoRegion,
    /// The list holds a name twice.
    DuplicateName,
    /// The list holds more names than the slot table has slots for.
    TooManyRegions,
}

impl RegionError {
    /// The error in words.
    pub fn message(&self) -> (text: &'static str)
        ensures
            *self == RegionError::NoRegion ==> text@ == "No variant for this value"@,
            *self == RegionError::DuplicateName ==> text@ == "A region name occurs twice"@,
            *self == RegionError::TooManyRegions ==> text@ == "More regions than slots"@,
    {
        match self {
            RegionError::NoRegion => "No variant for this value",
            RegionError::DuplicateName => "A region name occurs twice",
            RegionError::TooManyRegions => "More regions than slots",
        }
    }
}

/// The names of `names` are pairwise different.
pub open spec fn distinct(names: Seq<Seq<char>>) -> bool {
    forall|i: int, j: int| 0 <= i < j < names.len() ==> names[i] != names[j]
}

/// The identifier `id` belongs to one of `count` regions.
pub open spec fn is_identifier(id: int, count: nat) -> bool {
    1 <= id <= count
}

/// The identifier `id` belongs to a region of the list `names`.
pub open spec fn is_region(names: Seq<Seq<char>>, id: int) -> bool {
    is_identifier(id, names.len())
}

/// The name of the region with the identifier `id`.
pub open spec fn name_of(names: Seq<Seq<char>>, id: int) -> Seq<char>
    recommends
        is_region(names, id),
{
    names[id - 1]
}

/// Some region of the list `names` bears the name `name`.
pub open spec fn is_name(names: Seq<Seq<char>>, name: Seq<char>) -> bool {
    exists|id: int| is_region(names, id) && #[trigger] name_of(names, id) == name
}

/// The place in a list of `count` regions, counted from 0, of the region
/// with the identifier `id`. The identifier 0 and every identifier above
/// `count` belong to no region.
pub fn ordinal_of(id: usize, count: usize) -> (found: Result<usize, RegionError>)
    ensures
        is_identifier(id as int, count as nat) ==> found == Ok::<usize, RegionError>(
            (id - 1) as usize,
        ),
        !is_identifier(id as int, count as nat) ==> found == Err::<usize, RegionError>(
            RegionError::NoRegion,
        ),
{
    if id == 0 || id > count {
        Err(RegionError::NoRegion)
    } else {
        Ok(id - 1)
    }
}

/// Whether two texts hold the same characters.
pub fn same_text(a: &str, b: &str) -> (same: bool)
    ensures
        same == (a@ == b@),
{
    let left = a.as_bytes();
    let right = b.as_bytes();
    proof {
        vstd::utf8::encode_utf8_decode_utf8(a@);
        vstd::utf8::encode_utf8_decode_utf8(b@);
    }
    if left.len() != right.len() {
        return false;
    }
    let mut i: usize = 0;
    while i < left.len()
        invariant
            i <= left.len(),
            left.len() == right.len(),
            left@ == a.spec_bytes(),
            right@ == b.spec_bytes(),
            forall|k: int| 0 <= k < i ==> left@[k] == right@[k],
        decreases left.len() - i,
    {
        if left[i] != right[i] {
            return false;
        }
        i = i + 1;
    }
    assert(left@ =~= right@);
    true
}

/// A closed set of named regions.
pub struct RegionTable {
    names: Vec<&'static str>,
}

impl View for RegionTable {
    type V = Seq<Seq<char>>;

    closed spec fn view(&self) -> Seq<Seq<char>> {
        self.names@.map_values(|name: &'static str| name@)
    }
}

impl RegionTable {
    #[verifier::type_invariant]
    spec fn well_formed(&self) -> bool {
        self@.len() < SLOT_COUNT && distinct(self@)
    }

    /// The table of the regions named in `names`, in their order: the first
    /// gets the identifier 1. A list with as many names as the slot table has
    /// slots, or more, is refused, and so is one that holds a name twice.
    pub fn new(names: Vec<&'static str>) -> (made: Result<Self, RegionError>)
        ensures
            names.len() >= SLOT_COUNT ==> made == Err::<Self, RegionError>(
                RegionError::TooManyRegions,
            ),
            names.len() < SLOT_COUNT && !distinct(names@.map_values(|name: &'static str| name@))
                ==> made == Err::<Self, RegionError>(RegionError::DuplicateName),
            names.len() < SLOT_COUNT && distinct(names@.map_values(|name: &'static str| name@))
                ==> made is Ok && made->Ok_0@ == names@.map_values(|name: &'static str| name@),
            made is Ok ==> made->Ok_0@.len() < SLOT_COUNT && distinct(made->Ok_0@),
    {
        if names.len() >= SLOT_COUNT {
            return Err(RegionError::TooManyRegions);
        }
        let ghost texts = names@.map_values(|name: &'static str| name@);
        let mut j: usize = 0;
        while j < names.len()
            invariant
                j <= names.len() < SLOT_COUNT,
                texts == names@.map_values(|name: &'static str| name@),
                forall|a: int, b: int| 0 <= a < b < j ==> texts[a] != texts[b],
            decreases names.len() - j,
        {
            let mut i: usize = 0;
            while i < j
                invariant
                    i <= j < names.len() < SLOT_COUNT,
                    texts == names@.map_values(|name: &'static str| name@),
                    forall|a: int| 0 <= a < i ==> texts[a] != texts[j as int],
                decreases j - i,
            {
                if same_text(names[i], names[j]) {
                    assert(texts[i as int] == texts[j as int]);
                    return Err(RegionError::DuplicateName);
                }
                i = i + 1;
            }
            j = j + 1;
        }
        Ok(Self { names })
    }

    /// The number of regions.
    pub fn len(&self) -> (count: usize)
        ensures
            count == self@.len(),
            count < SLOT_COUNT,
            distinct(self@),
    {
        proof {
            use_type_invariant(self);
        }
        self.names.len()
    }

    /// The name of the region with the identifier `id`. The identifier 0
    /// and every identifier above the number of regions have none.
    pub fn name(&self, id: usize) -> (found: Result<&'static str, RegionError>)
        ensures
            is_region(self@, id as int) ==> found is Ok && found->Ok_0@ == name_of(self@, id as int),
            !is_region(self@, id as int) ==> found == Err::<&'static str, RegionError>(
                RegionError::NoRegion,
            ),
    {
        match ordinal_of(id, self.names.len()) {
            Ok(place) => Ok(self.names[place]),
            Err(error) => Err(error),
        }
    }

    /// The identifier of the region that bears the name `name`.
    pub fn identifier(&self, name: &str) -> (found: Result<usize, RegionError>)
        ensures
            is_name(self@, name@) ==> found is Ok && is_region(self@, found->Ok_0 as int)
                && name_of(self@, found->Ok_0 as int) == name@,
            !is_name(self@, name@) ==> found == Err::<usize, RegionError>(RegionError::NoRegion),
    {
        let mut i: usize = 0;
        while i < self.names.len()
            invariant
                i <= self.names.len(),
                forall|id: int| 1 <= id <= i ==> #[trigger] name_of(self@, id) != name@,
            decreases self.names.len() - i,
        {
            if same_text(self.names[i], name) {
                proof {
                    use_type_invariant(self);
                }
                assert(name_of(self@, i + 1) == name@);
                return Ok(i + 1);
            }
            i = i + 1;
        }
        Err(RegionError::NoRegion)
    }

    /// Enters the region with the identifier `id` under its name, at the
    /// counter reading `now`. Where no region has the identifier, nothing is
    /// entered and the profiler stays as it was.
    pub fn enter<T: Into<usize> + 'static>(
        &self,
        id: usize,
        profiler: &mut Profiler<T>,
        now: u64,
    ) -> (entered: Result<ProfileScope, RegionError>)
        requires
            old(profiler).wf(),
        ensures
            final(profiler).wf(),
            is_region(self@, id as int) ==> entered is Ok && final(profiler)@ == enter_region(
                old(profiler)@,
                id as nat,
            ) && entered->Ok_0@ == open_scope(
                old(profiler)@,
                name_of(self@, id as int),
                id as nat,
                now,
            ),
            !is_region(self@, id as int) ==> entered == Err::<ProfileScope, RegionError>(
                RegionError::NoRegion,
            ) && final(profiler)@ == old(profiler)@,
            id < SLOT_COUNT || entered is Err,
    {
        proof {
            use_type_invariant(self);
        }
        match self.name(id) {
            Ok(name) => Ok(ProfileScope::new(name, id, profiler, now)),
            Err(error) => Err(error),
        }
    }
}

/// In a table every identifier has one name and every name one identifier:
/// looking up the name of an identifier and then the identifier of that
/// name leads back, and two identifiers with one name are one.
pub proof fn lemma_one_to_one(names: Seq<Seq<char>>, a: int, b: int)
    requires
        distinct(names),
        is_region(names, a),
        is_region(names, b),
    ensures
        is_name(names, name_of(names, a)),
        name_of(names, a) == name_of(names, b) <==> a == b,
{
    if a < b {
        assert(names[a - 1] != names[b - 1]);
    }
    if b < a {
        assert(names[b - 1] != names[a - 1]);
    }
}

/// The identifier 0 is no region's, however many regions there are.
pub proof fn lemma_zero_is_no_region(count: nat)
    ensures
        !is_identifier(0, count),
{
}

} // verus!
