//! Fuel catalogue identifiers, bark type names, and fuel-type maps that turn
//! the codes of a raster fuel grid into fuels.
use vstd::prelude::*;

verus! {

/// Australian bark types critical for fire behavior.
#[derive(Debug, Clone, Copy, PartialEq, Eq, Structural)]
pub enum BarkType {
    /// Less fire risk.
    Smooth,
    /// Moderate ladder fuel.
    Fibrous,
    /// Extreme ladder fuel (causes crown fires).
    Stringybark,
    /// Dense, slow burning.
    IronBark,
    /// Highly flammable.
    PaperBark,
}

/// Name of a bark type by its numeric id.
pub open spec fn bark_name(bark_type_id: u8) -> Seq<char> {
    if bark_type_id == 0 {
        "Smooth"@
    } else if bark_type_id == 1 {
        "Fibrous"@
    } else if bark_type_id == 2 {
        "Stringybark"@
    } else if bark_type_id == 3 {
        "Ironbark"@
    } else if bark_type_id == 4 {
        "Paperbark"@
    } else {
        "None"@
    }
}

/// Get the bark type name for a numeric bark type id (0 smooth, 1 fibrous,
/// 2 stringybark, 3 ironbark, 4 paperbark; anything else names no bark).
pub fn bark_type_name(bark_type_id: u8) -> (name: &'static str)
    ensures
        name@ == bark_name(bark_type_id),
{
    match bark_type_id {
        0 => "Smooth",
        1 => "Fibrous",
        2 => "Stringybark",
        3 => "Ironbark",
        4 => "Paperbark",
        _ => "None",
    }
}

/// The fuels of the built-in catalogue.
#[derive(Debug, Clone, Copy, PartialEq, Eq, Structural)]
pub enum FuelKind {
    /// Eucalyptus stringybark (id 1).
    EucalyptusStringybark,
    /// Eucalyptus smooth bark (id 2).
    EucalyptusSmoothBark,
    /// Dry grass (id 3).
    DryGrass,
    /// Shrubland/scrub (id 4).
    Shrubland,
    /// Dead wood/litter (id 5).
    DeadWoodLitter,
    /// Green vegetation (id 6).
    GreenVegetation,
    /// Water, not burnable (id 10).
    Water,
    /// Rock, not burnable (id 11).
    Rock,
}

/// Numeric id of a catalogue fuel.
pub open spec fn fuel_id(k: FuelKind) -> u8 {
    match k {
        FuelKind::EucalyptusStringybark => 1,
        FuelKind::EucalyptusSmoothBark => 2,
        FuelKind::DryGrass => 3,
        FuelKind::Shrubland => 4,
        FuelKind::DeadWoodLitter => 5,
        FuelKind::GreenVegetation => 6,
        FuelKind::Water => 10,
        FuelKind::Rock => 11,
    }
}

/// Catalogue fuel that an id selects: ids 1 to 6 name the burnable fuels.
pub open spec fn fuel_kind_of(id: u8) -> Option<FuelKind> {
    if id == 1 {
        Some(FuelKind::EucalyptusStringybark)
    } else if id == 2 {
        Some(FuelKind::EucalyptusSmoothBark)
    } else if id == 3 {
        Some(FuelKind::DryGrass)
    } else if id == 4 {
        Some(FuelKind::Shrubland)
    } else if id == 5 {
        Some(FuelKind::DeadWoodLitter)
    } else if id == 6 {
        Some(FuelKind::GreenVegetation)
    } else {
        None
    }
}

impl FuelKind {
    /// Get fuel by ID.
    pub fn from_id(id: u8) -> (k: Option<FuelKind>)
        ensures
            k == fuel_kind_of(id),
            id == 1 ==> k == Some(FuelKind::EucalyptusStringybark),
            id == 2 ==> k == Some(FuelKind::EucalyptusSmoothBark),
            id == 3 ==> k == Some(FuelKind::DryGrass),
            id == 4 ==> k == Some(FuelKind::Shrubland),
            id == 5 ==> k == Some(FuelKind::DeadWoodLitter),
            id == 6 ==> k == Some(FuelKind::GreenVegetation),
            (id == 0 || id > 6) ==> k is None,
    {
        match id {
            1 => Some(FuelKind::EucalyptusStringybark),
            2 => Some(FuelKind::EucalyptusSmoothBark),
            3 => Some(FuelKind::DryGrass),
            4 => Some(FuelKind::Shrubland),
            5 => Some(FuelKind::DeadWoodLitter),
            6 => Some(FuelKind::GreenVegetation),
            _ => None,
        }
    }

    /// Numeric id of the fuel.
    pub fn id(&self) -> (i: u8)
        ensures
            i == fuel_id(*self),
            *self == FuelKind::EucalyptusStringybark ==> i == 1,
            *self == FuelKind::EucalyptusSmoothBark ==> i == 2,
            *self == FuelKind::DryGrass ==> i == 3,
            *self == FuelKind::Shrubland ==> i == 4,
            *self == FuelKind::DeadWoodLitter ==> i == 5,
            *self == FuelKind::GreenVegetation ==> i == 6,
            *self == FuelKind::Water ==> i == 10,
            *self == FuelKind::Rock ==> i == 11,
    {
        match self {
            FuelKind::EucalyptusStringybark => 1,
            FuelKind::EucalyptusSmoothBark => 2,
            FuelKind::DryGrass => 3,
            FuelKind::Shrubland => 4,
            FuelKind::DeadWoodLitter => 5,
            FuelKind::GreenVegetation => 6,
            FuelKind::Water => 10,
            FuelKind::Rock => 11,
        }
    }
}

/// Looking a fuel up by the id of a burnable catalogue fuel gives that fuel
/// back; the ids of water and rock select nothing.
pub proof fn lemma_fuel_id_roundtrip(k: FuelKind)
    ensures
        k != FuelKind::Water && k != FuelKind::Rock ==> fuel_kind_of(fuel_id(k)) == Some(k),
        k == FuelKind::Water || k == FuelKind::Rock ==> fuel_kind_of(fuel_id(k)) is None,
{
}

/// The catalogue's numbering: id 1 is eucalyptus stringybark, 2 smooth
/// bark, 3 dry grass, 4 shrubland, 5 dead wood and litter, 6 green
/// vegetation; water is 10 and rock 11, and no other id selects a fuel.
pub proof fn lemma_catalogue_ids(id: u8)
    ensures
        fuel_kind_of(1) == Some(FuelKind::EucalyptusStringybark),
        fuel_kind_of(2) == Some(FuelKind::EucalyptusSmoothBark),
        fuel_kind_of(3) == Some(FuelKind::DryGrass),
        fuel_kind_of(4) == Some(FuelKind::Shrubland),
        fuel_kind_of(5) == Some(FuelKind::DeadWoodLitter),
        fuel_kind_of(6) == Some(FuelKind::GreenVegetation),
        (id == 0 || id > 6) ==> fuel_kind_of(id) is None,
        fuel_id(FuelKind::EucalyptusStringybark) == 1,
        fuel_id(FuelKind::EucalyptusSmoothBark) == 2,
        fuel_id(FuelKind::DryGrass) == 3,
        fuel_id(FuelKind::Shrubland) == 4,
        fuel_id(FuelKind::DeadWoodLitter) == 5,
        fuel_id(FuelKind::GreenVegetation) == 6,
        fuel_id(FuelKind::Water) == 10,
        fuel_id(FuelKind::Rock) == 11,
{
}

/// Distinct catalogue fuels have distinct ids.
pub proof fn lemma_fuel_ids_distinct(a: FuelKind, b: FuelKind)
    requires
        a != b,
    ensures
        fuel_id(a) != fuel_id(b),
{
}

/// What a code maps to in a table of optional fuels: nothing for codes past
/// the end of the table.
pub open spec fn lookup<F>(table: Seq<Option<F>>, code: u8) -> Option<F> {
    if (code as int) < table.len() {
        table[code as int]
    } else {
        None
    }
}

/// Table after mapping `code` to `fuel`; codes past the end are ignored.
pub open spec fn store<F>(table: Seq<Option<F>>, code: u8, fuel: Option<F>) -> Seq<Option<F>> {
    if (code as int) < table.len() {
        table.update(code as int, fuel)
    } else {
        table
    }
}

/// Fuel type mapping: the fuel (if any) that each raster fuel code stands for.
pub struct FuelMapping<F> {
    mappings: Vec<Option<F>>,
}

impl<F> FuelMapping<F> {
    /// The table, indexed by fuel code.
    pub closed spec fn table(&self) -> Seq<Option<F>> {
        self.mappings@
    }

    /// Create a custom fuel mapping: the fuel of code `c` is `mappings[c]`.
    pub fn custom(mappings: Vec<Option<F>>) -> (m: Self)
        ensures
            m.table() == mappings@,
    {
        FuelMapping { mappings }
    }

    /// Get fuel for a given code.
    pub fn get_fuel(&self, code: u8) -> (r: Option<&F>)
        ensures
            match r {
                Some(f) => lookup(self.table(), code) == Some(*f),
                None => lookup(self.table(), code) is None,
            },
    {
        if (code as usize) < self.mappings.len() {
            match &self.mappings[code as usize] {
                Some(f) => Some(f),
                None => None,
            }
        } else {
            None
        }
    }

    /// Set fuel for a specific code; codes past the end of the table are
    /// ignored.
    pub fn set_fuel(&mut self, code: u8, fuel: Option<F>)
        ensures
            final(self).table() == store(old(self).table(), code, fuel),
    {
        if (code as usize) < self.mappings.len() {
            self.mappings.set(code as usize, fuel);
        }
    }

    /// The table, indexed by fuel code.
    pub fn codes(&self) -> (t: &Vec<Option<F>>)
        ensures
            t@ == self.table(),
    {
        &self.mappings
    }
}

/// Reading a code back after setting it gives what was set, for codes
/// within the table; other codes are unaffected.
pub proof fn lemma_get_after_set<F>(table: Seq<Option<F>>, code: u8, other: u8, fuel: Option<F>)
    ensures
        (code as int) < table.len() ==> lookup(store(table, code, fuel), code) == fuel,
        other != code ==> lookup(store(table, code, fuel), other) == lookup(table, other),
        store(table, code, fuel).len() == table.len(),
{
}

/// DBCA Western Australian fuel code table: 1 Jarrah and 4 Karri forest as
/// stringybark, 2 Marri forest as smooth bark, 3 grassland as dry grass,
/// 5 mallee and 6 heath as shrubland, 7 wetland as green vegetation; 0, 8
/// (urban/non-fuel) and every other code map to no fuel.
pub open spec fn dbca_wa_table() -> Seq<Option<FuelKind>> {
    Seq::new(
        256,
        |c: int|
            if c == 1 || c == 4 {
                Some(FuelKind::EucalyptusStringybark)
            } else if c == 2 {
                Some(FuelKind::EucalyptusSmoothBark)
            } else if c == 3 {
                Some(FuelKind::DryGrass)
            } else if c == 5 || c == 6 {
                Some(FuelKind::Shrubland)
            } else if c == 7 {
                Some(FuelKind::GreenVegetation)
            } else {
                None
            },
    )
}

impl FuelMapping<FuelKind> {
    /// Create a new fuel mapping with the default DBCA Western Australian fuel
    /// types.
    pub fn new_dbca_wa() -> (m: Self)
        ensures
            m.table() == dbca_wa_table(),
    {
        let mut mappings: Vec<Option<FuelKind>> = Vec::new();
        let mut i: usize = 0;
        while i < 256
            invariant
                i <= 256,
                mappings@.len() == i,
                forall|c: int| 0 <= c < i ==> #[trigger] mappings@[c] is None,
            decreases 256 - i,
        {
            mappings.push(None);
            i = i + 1;
        }
        mappings.set(1, Some(FuelKind::EucalyptusStringybark));
        mappings.set(2, Some(FuelKind::EucalyptusSmoothBark));
        mappings.set(3, Some(FuelKind::DryGrass));
        mappings.set(4, Some(FuelKind::EucalyptusStringybark));
        mappings.set(5, Some(FuelKind::Shrubland));
        mappings.set(6, Some(FuelKind::Shrubland));
        mappings.set(7, Some(FuelKind::GreenVegetation));
        mappings.set(8, None);
        mappings.set(0, None);
        assert(mappings@ =~= dbca_wa_table());
        FuelMapping { mappings }
    }
}

impl Default for FuelMapping<FuelKind> {
    fn default() -> (m: Self)
        ensures
            m.table() == dbca_wa_table(),
    {
        Self::new_dbca_wa()
    }
}

/// Checkerboard fuel code of a cell: 1 (Jarrah) where `x + y` is even,
/// 3 (grassland) where it is odd.
pub open spec fn checkerboard_code(x: int, y: int) -> u8 {
    if (x + y) % 2 == 0 {
        1
    } else {
        3
    }
}

/// Create a simple test fuel grid: a `width`×`height` checkerboard of
/// Jarrah (1) and grassland (3) codes, row by row.
pub fn create_test_fuel_grid(width: usize, height: usize) -> (grid: Vec<u8>)
    requires
        width * height <= usize::MAX,
    ensures
        grid@.len() == width * height,
        forall|x: int, y: int|
            0 <= x < width && 0 <= y < height ==> #[trigger] grid@[y * width + x]
                == checkerboard_code(x, y),
{
    let mut grid: Vec<u8> = Vec::new();
    let mut y: usize = 0;
    while y < height
        invariant
            y <= height,
            width * height <= usize::MAX,
            grid@.len() == y * width,
            forall|xx: int, yy: int|
                0 <= xx < width && 0 <= yy < y ==> #[trigger] grid@[yy * width + xx]
                    == checkerboard_code(xx, yy),
        decreases height - y,
    {
        let ghost row_start = grid@;
        let mut x: usize = 0;
        while x < width
            invariant
                x <= width,
                y < height,
                width * height <= usize::MAX,
                grid@.len() == y * width + x,
                row_start.len() == y * width,
                grid@.subrange(0, y * width) == row_start,
                forall|xx: int| 0 <= xx < x ==> #[trigger] grid@[y * width + xx] == checkerboard_code(
                    xx,
                    y as int,
                ),
            decreases width - x,
        {
            assert(y * width + x < width * height) by (nonlinear_arith)
                requires
                    x < width,
                    y < height,
            ;
            assert(x + y < width * height) by (nonlinear_arith)
                requires
                    x < width,
                    y < height,
            ;
            let code: u8 = if (x + y) % 2 == 0 {
                1
            } else {
                3
            };
            grid.push(code);
            assert(grid@.subrange(0, y * width) =~= row_start);
            x = x + 1;
        }
        assert forall|xx: int, yy: int|
            0 <= xx < width && 0 <= yy < y + 1 implies #[trigger] grid@[yy * width + xx]
                == checkerboard_code(xx, yy) by {
            if yy < y {
                assert(yy * width + xx < y * width) by (nonlinear_arith)
                    requires
                        0 <= xx < width,
                        0 <= yy < y,
                ;
                assert(grid@[yy * width + xx] == row_start[yy * width + xx]);
            }
        }
        assert(grid@.len() == (y + 1) * width) by (nonlinear_arith)
            requires
                grid@.len() == y * width + width,
        ;
        y = y + 1;
    }
    assert(y * width == width * height) by (nonlinear_arith)
        requires
            y == height,
    ;
    grid
}

/// The fuel code grid does not have `width * height` codes.
#[derive(Debug, Clone, Copy, PartialEq, Eq, Structural)]
pub struct FuelGridSizeMismatch {
    /// Grid width that was given.
    pub width: usize,
    /// Grid height that was given.
    pub height: usize,
    /// Number of codes the dimensions call for.
    pub expected: usize,
    /// Number of codes that were supplied.
    pub actual: usize,
}

/// Check that a fuel type grid holds exactly `width * height` codes.
pub fn check_fuel_type_grid(fuel_codes: &[u8], width: usize, height: usize) -> (r: Result<
    (),
    FuelGridSizeMismatch,
>)
    requires
        width * height <= usize::MAX,
    ensures
        match r {
            Ok(()) => fuel_codes@.len() == width * height,
            Err(e) => fuel_codes@.len() != width * height && e == (FuelGridSizeMismatch {
                width,
                height,
                expected: (width * height) as usize,
                actual: fuel_codes@.len() as usize,
            }),
        },
{
    let expected = width * height;
    if fuel_codes.len() != expected {
        return Err(FuelGridSizeMismatch { width, height, expected, actual: fuel_codes.len() });
    }
    Ok(())
}

} // verus!
