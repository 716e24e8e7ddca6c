//! Options of the C generator, read from text.

use vstd::prelude::*;

use crate::text::{capitals, characters, number_of, parse_number, same_capitals, same_text};

verus! {

/// Fractional bits of plain fixed-point numbers.
pub const DEFAULT_FIXED_FRAC: u8 = 16;

/// Number of bits of fixed-point numbers.
pub const FIXED_BITS: u32 = 32;

/// Largest number of fractional bits.
pub const FIXED_FRAC_MAX: u32 = 30;

/// Number format of the generated code.
#[derive(Debug, Clone, Copy, PartialEq, Eq, Structural)]
pub enum Numeric {
    Double,
    Float,
    Fixed { frac: u8 },
}

/// How reductions are written.
#[derive(Debug, Clone, Copy, PartialEq, Eq, Structural)]
pub enum Reductions {
    Unrolled,
    Vectorized,
}

/// How functions are cut.
#[derive(Debug, Clone, Copy, PartialEq, Eq, Structural)]
pub enum Structure {
    Hierarchical,
    Flat,
}

/// How files are cut.
#[derive(Debug, Clone, Copy, PartialEq, Eq, Structural)]
pub enum Layout {
    Compact,
    Library,
}

/// Interface of the generated code.
#[derive(Debug, Clone, Copy, PartialEq, Eq, Structural)]
pub enum ModelApi {
    Struct,
}

/// All options of the generator. The solver is the name of its tableau.
#[derive(Debug)]
pub struct CodegenOptions {
    pub scaffold: bool,
    pub trace: bool,
    pub a2l: bool,
    pub numeric: Numeric,
    pub reductions: Reductions,
    pub structure: Structure,
    pub layout: Layout,
    pub solver: String,
    pub api: ModelApi,
}

/// Why an option was refused.
#[derive(Debug)]
pub enum OptionError {
    /// The field has no such value; these are the values it has.
    Unknown { field: String, value: String, allowed: Vec<&'static str> },
    /// The bits of a fixed-point format do not add up.
    BadFormat { whole: u32, frac: u32 },
    UnknownNumeric(String),
    UnknownSolver(String),
}

/// A value that an option may have, by its name.
#[derive(Debug, Clone, Copy)]
pub struct Choice<T> {
    pub name: &'static str,
    pub value: T,
}

/// Choice `k` is the first with the given name.
pub open spec fn first_named<T>(table: Seq<Choice<T>>, name: Seq<char>, k: int) -> bool {
    0 <= k < table.len() && table[k].name@ == name && forall|j: int|
        0 <= j < k ==> (#[trigger] table[j]).name@ != name
}

/// The result of looking up a value of a field.
pub open spec fn looked_up<T>(
    field: Seq<char>,
    value: Seq<char>,
    table: Seq<Choice<T>>,
    r: Result<T, OptionError>,
) -> bool {
    match r {
        Ok(v) => exists|k: int| #[trigger] first_named(table, value, k) && v == table[k].value,
        Err(OptionError::Unknown { field: f, value: x, allowed }) => {
            &&& forall|k: int| 0 <= k < table.len() ==> (#[trigger] table[k]).name@ != value
            &&& f@ == field
            &&& x@ == value
            &&& allowed@ == Seq::new(table.len(), |k: int| table[k].name)
        },
        Err(_) => false,
    }
}

/// Looks up the value of a field.
pub fn parse_opt<T: Copy>(field: &str, value: &str, table: &Vec<Choice<T>>) -> (r: Result<
    T,
    OptionError,
>)
    ensures
        looked_up(field@, value@, table@, r),
{
    let mut allowed: Vec<&'static str> = Vec::new();
    let mut i: usize = 0;
    while i < table.len()
        invariant
            i <= table@.len(),
            forall|k: int| 0 <= k < i ==> (#[trigger] table@[k]).name@ != value@,
            allowed@ == Seq::new(i as nat, |k: int| table@[k].name),
        decreases table@.len() - i,
    {
        if same_text(table[i].name, value) {
            assert(first_named(table@, value@, i as int));
            return Ok(table[i].value);
        }
        allowed.push(table[i].name);
        assert(allowed@ =~= Seq::new((i + 1) as nat, |k: int| table@[k].name));
        i += 1;
    }
    Err(OptionError::Unknown { field: field.to_owned(), value: value.to_owned(), allowed })
}

/// Position of the first dot at or after `from`.
pub open spec fn first_dot(s: Seq<char>, from: int) -> Option<int>
    decreases s.len() - from,
{
    if from >= s.len() {
        None
    } else if s[from] == '.' {
        Some(from)
    } else {
        first_dot(s, from + 1)
    }
}

/// Whole and fractional bits of a text such as `q4.28`, if it is of that form.
pub open spec fn format_bits(s: Seq<char>) -> Option<(u32, u32)> {
    if s.len() == 0 || s[0] != 'q' {
        None
    } else {
        match first_dot(s, 1) {
            None => None,
            Some(d) => match (
                number_of(s.subrange(1, d)),
                number_of(s.subrange(d + 1, s.len() as int)),
            ) {
                (Some(m), Some(n)) => Some((m, n)),
                _ => None,
            },
        }
    }
}

/// The bits fill a number, and some but not all of them are fractional.
pub open spec fn format_fits(bits: (u32, u32)) -> bool {
    bits.0 + bits.1 == FIXED_BITS && 1 <= bits.1 <= FIXED_FRAC_MAX
}

/// The result of reading a number format.
pub open spec fn numeric_read(s: Seq<char>, r: Result<Numeric, OptionError>) -> bool {
    if s == "double"@ {
        r == Ok::<Numeric, OptionError>(Numeric::Double)
    } else if s == "float"@ {
        r == Ok::<Numeric, OptionError>(Numeric::Float)
    } else if s == "fixed"@ {
        r == Ok::<Numeric, OptionError>(Numeric::Fixed { frac: DEFAULT_FIXED_FRAC })
    } else {
        match format_bits(s) {
            Some(bits) => if format_fits(bits) {
                r == Ok::<Numeric, OptionError>(Numeric::Fixed { frac: bits.1 as u8 })
            } else {
                r matches Err(OptionError::BadFormat { whole, frac }) && (whole, frac) == bits
            },
            None => r matches Err(OptionError::UnknownNumeric(x)) && x@ == s,
        }
    }
}

fn find_dot(s: &Vec<char>, from: usize) -> (r: Option<usize>)
    requires
        from <= s@.len(),
    ensures
        match r {
            Some(d) => from <= d < s@.len() && first_dot(s@, from as int) == Some(d as int),
            None => first_dot(s@, from as int) is None,
        },
    decreases s@.len() - from,
{
    if from == s.len() {
        return None;
    }
    if s[from] == '.' {
        return Some(from);
    }
    find_dot(s, from + 1)
}

fn read_format(value: &str) -> (r: Option<(u32, u32)>)
    ensures
        r == format_bits(value@),
{
    let s: Vec<char> = characters(value);
    if s.len() == 0 || s[0] != 'q' {
        return None;
    }
    match find_dot(&s, 1) {
        None => None,
        Some(d) => {
            let m: Option<u32> = parse_number(&s, 1, d);
            let n: Option<u32> = parse_number(&s, d + 1, s.len());
            match (m, n) {
                (Some(m), Some(n)) => Some((m, n)),
                _ => None,
            }
        },
    }
}

/// Reads a number format: `double`, `float`, `fixed`, or a fixed-point format
/// such as `q4.28` whose whole and fractional bits fill a number.
pub fn resolve_numeric(numeric: &str) -> (r: Result<Numeric, OptionError>)
    ensures
        numeric_read(numeric@, r),
{
    if same_text(numeric, "double") {
        return Ok(Numeric::Double);
    }
    if same_text(numeric, "float") {
        return Ok(Numeric::Float);
    }
    if same_text(numeric, "fixed") {
        return Ok(Numeric::Fixed { frac: DEFAULT_FIXED_FRAC });
    }
    match read_format(numeric) {
        Some((m, n)) => {
            if n >= 1 && n <= FIXED_FRAC_MAX && m == FIXED_BITS - n {
                Ok(Numeric::Fixed { frac: n as u8 })
            } else {
                Err(OptionError::BadFormat { whole: m, frac: n })
            }
        },
        None => Err(OptionError::UnknownNumeric(numeric.to_owned())),
    }
}

/// The tableaus that can be generated, by name.
pub open spec fn is_explicit_tableau(s: Seq<char>) -> bool {
    ||| s == "EUF"@
    ||| s == "RK4"@
    ||| s == "SSPRK22"@
    ||| s == "SSPRK33"@
    ||| s == "SSPRK34"@
    ||| s == "RKF21"@
    ||| s == "RKBS32"@
    ||| s == "RKF45"@
    ||| s == "RKCK54"@
    ||| s == "RKDP54"@
    ||| s == "RKV65"@
    ||| s == "RKF78"@
    ||| s == "RKDP87"@
}

/// Name of the tableau that a text stands for.
pub open spec fn tableau_name(s: Seq<char>) -> Seq<char> {
    if capitals(s) == "EULER"@ || capitals(s) == "FORWARD_EULER"@ {
        "EUF"@
    } else {
        capitals(s)
    }
}

fn known_tableau(solver: &str) -> (r: Option<&'static str>)
    ensures
        match r {
            Some(n) => n@ == tableau_name(solver@) && is_explicit_tableau(n@),
            None => !is_explicit_tableau(tableau_name(solver@)),
        },
{
    if same_capitals(solver, "EULER") || same_capitals(solver, "FORWARD_EULER") {
        return Some("EUF");
    }
    if same_capitals(solver, "EUF") {
        return Some("EUF");
    }
    if same_capitals(solver, "RK4") {
        return Some("RK4");
    }
    if same_capitals(solver, "SSPRK22") {
        return Some("SSPRK22");
    }
    if same_capitals(solver, "SSPRK33") {
        return Some("SSPRK33");
    }
    if same_capitals(solver, "SSPRK34") {
        return Some("SSPRK34");
    }
    if same_capitals(solver, "RKF21") {
        return Some("RKF21");
    }
    if same_capitals(solver, "RKBS32") {
        return Some("RKBS32");
    }
    if same_capitals(solver, "RKF45") {
        return Some("RKF45");
    }
    if same_capitals(solver, "RKCK54") {
        return Some("RKCK54");
    }
    if same_capitals(solver, "RKDP54") {
        return Some("RKDP54");
    }
    if same_capitals(solver, "RKV65") {
        return Some("RKV65");
    }
    if same_capitals(solver, "RKF78") {
        return Some("RKF78");
    }
    if same_capitals(solver, "RKDP87") {
        return Some("RKDP87");
    }
    None
}

/// The result of reading a solver.
pub open spec fn solver_read(s: Seq<char>, r: Result<String, OptionError>) -> bool {
    if is_explicit_tableau(tableau_name(s)) {
        r matches Ok(n) && n@ == tableau_name(s)
    } else {
        r matches Err(OptionError::UnknownSolver(x)) && x@ == s
    }
}

/// Reads a solver: `euler`, `forward_euler`, or the name of an explicit tableau,
/// in letters of any case.
pub fn resolve_solver(solver: &str) -> (r: Result<String, OptionError>)
    ensures
        solver_read(solver@, r),
{
    match known_tableau(solver) {
        Some(n) => Ok(n.to_owned()),
        None => Err(OptionError::UnknownSolver(solver.to_owned())),
    }
}

/// The texts of the options.
#[derive(Debug, Clone, Copy)]
pub struct OptionTexts<'a> {
    pub numeric: &'a str,
    pub reductions: &'a str,
    pub structure: &'a str,
    pub layout: &'a str,
    pub solver: &'a str,
    pub api: &'a str,
}

/// The table of the ways to write reductions.
pub open spec fn reductions_table() -> Seq<Choice<Reductions>> {
    seq![
        Choice { name: "unrolled", value: Reductions::Unrolled },
        Choice { name: "vectorized", value: Reductions::Vectorized },
    ]
}

/// The table of the ways to cut functions.
pub open spec fn structure_table() -> Seq<Choice<Structure>> {
    seq![
        Choice { name: "hierarchical", value: Structure::Hierarchical },
        Choice { name: "flat", value: Structure::Flat },
    ]
}

/// The table of the ways to cut files.
pub open spec fn layout_table() -> Seq<Choice<Layout>> {
    seq![
        Choice { name: "compact", value: Layout::Compact },
        Choice { name: "library", value: Layout::Library },
    ]
}

/// The table of the interfaces.
pub open spec fn api_table() -> Seq<Choice<ModelApi>> {
    seq![Choice { name: "struct", value: ModelApi::Struct }]
}

/// The result of reading all options: the first refusal, in the order of the
/// fields, or all values.
pub open spec fn options_read(
    t: OptionTexts,
    scaffold: bool,
    trace: bool,
    a2l: bool,
    r: Result<CodegenOptions, OptionError>,
) -> bool {
    match r {
        Ok(o) => {
            &&& o.scaffold == scaffold && o.trace == trace && o.a2l == a2l
            &&& numeric_read(t.numeric@, Ok(o.numeric))
            &&& looked_up("reductions"@, t.reductions@, reductions_table(), Ok(o.reductions))
            &&& looked_up("structure"@, t.structure@, structure_table(), Ok(o.structure))
            &&& looked_up("layout"@, t.layout@, layout_table(), Ok(o.layout))
            &&& solver_read(t.solver@, Ok(o.solver))
            &&& looked_up("api"@, t.api@, api_table(), Ok(o.api))
        },
        Err(e) => {
            ||| numeric_read(t.numeric@, Err(e))
            ||| numeric_accepted(t) && looked_up(
                "reductions"@,
                t.reductions@,
                reductions_table(),
                Err(e),
            )
            ||| numeric_accepted(t) && reductions_accepted(t) && looked_up(
                "structure"@,
                t.structure@,
                structure_table(),
                Err(e),
            )
            ||| numeric_accepted(t) && reductions_accepted(t) && structure_accepted(t)
                && looked_up("layout"@, t.layout@, layout_table(), Err(e))
            ||| numeric_accepted(t) && reductions_accepted(t) && structure_accepted(t)
                && layout_accepted(t) && solver_read(t.solver@, Err(e))
            ||| numeric_accepted(t) && reductions_accepted(t) && structure_accepted(t)
                && layout_accepted(t) && solver_accepted(t) && looked_up(
                "api"@,
                t.api@,
                api_table(),
                Err(e),
            )
        },
    }
}

/// The number format is one.
pub open spec fn numeric_accepted(t: OptionTexts) -> bool {
    exists|v: Numeric| #[trigger] numeric_read(t.numeric@, Ok(v))
}

/// The way to write reductions is one.
pub open spec fn reductions_accepted(t: OptionTexts) -> bool {
    exists|v: Reductions| #[trigger]
        looked_up("reductions"@, t.reductions@, reductions_table(), Ok(v))
}

/// The way to cut functions is one.
pub open spec fn structure_accepted(t: OptionTexts) -> bool {
    exists|v: Structure| #[trigger]
        looked_up("structure"@, t.structure@, structure_table(), Ok(v))
}

/// The way to cut files is one.
pub open spec fn layout_accepted(t: OptionTexts) -> bool {
    exists|v: Layout| #[trigger] looked_up("layout"@, t.layout@, layout_table(), Ok(v))
}

/// The solver is one.
pub open spec fn solver_accepted(t: OptionTexts) -> bool {
    is_explicit_tableau(tableau_name(t.solver@))
}

/// Reads all options.
pub fn options_from_strs(
    t: OptionTexts,
    scaffold: bool,
    trace: bool,
    a2l: bool,
) -> (r: Result<CodegenOptions, OptionError>)
    ensures
        options_read(t, scaffold, trace, a2l, r),
{
    let numeric: Numeric = match resolve_numeric(t.numeric) {
        Ok(v) => v,
        Err(e) => {
            return Err(e);
        },
    };
    assert(numeric_read(t.numeric@, Ok(numeric)));
    assert(numeric_accepted(t));
    let table: Vec<Choice<Reductions>> = vec![
        Choice { name: "unrolled", value: Reductions::Unrolled },
        Choice { name: "vectorized", value: Reductions::Vectorized },
    ];
    assert(table@ =~= reductions_table());
    let reductions: Reductions = match parse_opt("reductions", t.reductions, &table) {
        Ok(v) => v,
        Err(e) => {
            return Err(e);
        },
    };
    assert(reductions_accepted(t));
    let table: Vec<Choice<Structure>> = vec![
        Choice { name: "hierarchical", value: Structure::Hierarchical },
        Choice { name: "flat", value: Structure::Flat },
    ];
    assert(table@ =~= structure_table());
    let structure: Structure = match parse_opt("structure", t.structure, &table) {
        Ok(v) => v,
        Err(e) => {
            return Err(e);
        },
    };
    assert(structure_accepted(t));
    let table: Vec<Choice<Layout>> = vec![
        Choice { name: "compact", value: Layout::Compact },
        Choice { name: "library", value: Layout::Library },
    ];
    assert(table@ =~= layout_table());
    let layout: Layout = match parse_opt("layout", t.layout, &table) {
        Ok(v) => v,
        Err(e) => {
            return Err(e);
        },
    };
    assert(layout_accepted(t));
    let solver: String = match resolve_solver(t.solver) {
        Ok(v) => v,
        Err(e) => {
            return Err(e);
        },
    };
    let table: Vec<Choice<ModelApi>> = vec![Choice { name: "struct", value: ModelApi::Struct }];
    assert(table@ =~= api_table());
    let api: ModelApi = match parse_opt("api", t.api, &table) {
        Ok(v) => v,
        Err(e) => {
            return Err(e);
        },
    };
    Ok(
        CodegenOptions {
            scaffold,
            trace,
            a2l,
            numeric,
            reductions,
            structure,
            layout,
            solver,
            api,
        },
    )
}

/// A fixed-point format that is accepted has between one and thirty fractional
/// bits.
pub proof fn law_accepted_format_fits(s: Seq<char>, n: Numeric)
    requires
        numeric_read(s, Ok(n)),
    ensures
        n matches Numeric::Fixed { frac } ==> 1 <= frac <= FIXED_FRAC_MAX,
{
}

/// The solver is read in letters of any case: texts that differ only in that are
/// read alike.
pub proof fn law_solver_ignores_case(
    a: Seq<char>,
    b: Seq<char>,
    r: Result<String, OptionError>,
    q: Result<String, OptionError>,
)
    requires
        capitals(a) == capitals(b),
        solver_read(a, r),
        solver_read(b, q),
    ensures
        r is Ok <==> q is Ok,
        r is Ok ==> r->Ok_0@ == q->Ok_0@,
{
}

} // verus!
