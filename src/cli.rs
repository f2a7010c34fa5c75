//! Render settings given on the command line, and the `WIDTH,HEIGHT` form of
//! image dimensions.
use vstd::prelude::*;
use crate::numeral::{
    decimal, is_digit, is_numeral, lemma_decimal, numeral_digits, numeral_value, push_decimal,
};

verus! {

#[verifier::external_type_specification]
#[verifier::external_body]
pub struct ExParseIntError(std::num::ParseIntError);

/// Image dimensions in pixels.
#[derive(Clone, Copy, Debug, PartialEq, Eq, Structural)]
pub struct Dimensions {
    pub width: usize,
    pub height: usize,
}

/// Why a `WIDTH,HEIGHT` value could not be read.
#[derive(Debug)]
pub enum ParseDimensionsError {
    /// One of the two numbers is not a decimal `usize`.
    ParseIntError(std::num::ParseIntError),
    /// The value holds no comma.
    MissingComma,
}

/// Settings of one render.
pub struct Cli {
    /// Image dimensions.
    pub dimensions: Dimensions,
    /// Number of worker threads; the number of physical cores when absent.
    pub num_threads: Option<usize>,
    /// Rays per pixel.
    pub rays_per_pixel: usize,
    /// Max recursion depth per ray.
    pub recursion_depth: usize,
}

/// The position of the first comma in `s`, if any.
pub open spec fn first_comma(s: Seq<char>) -> Option<int> {
    if exists|i: int| 0 <= i < s.len() && s[i] == ',' {
        Some(choose|i: int| 0 <= i < s.len() && s[i] == ',' && forall|j: int| 0 <= j < i ==> s[j] != ',')
    } else {
        None
    }
}

/// `s` reads as a `usize`.
pub open spec fn parses_as_usize(s: Seq<char>) -> bool {
    is_numeral(s) && numeral_value(s) <= usize::MAX
}

/// `WIDTH,HEIGHT`, split at the first comma, reads as dimensions.
pub open spec fn parses_as_dimensions(s: Seq<char>) -> bool {
    match first_comma(s) {
        Some(i) => parses_as_usize(s.take(i)) && parses_as_usize(s.skip(i + 1)),
        None => false,
    }
}

/// The text of dimensions: width, a comma, height.
pub open spec fn dimensions_text(d: Dimensions) -> Seq<char> {
    decimal(d.width as nat) + seq![','] + decimal(d.height as nat)
}

/// Relies on `usize::from_str`, which reads an optional `+` followed by one or
/// more ASCII decimal digits, and fails on anything else or on a value that
/// does not fit.
#[verifier::external_body]
fn parse_usize(s: &str) -> (r: Result<usize, std::num::ParseIntError>)
    ensures
        r is Ok <==> parses_as_usize(s@),
        r is Ok ==> r->Ok_0 == numeral_value(s@),
{
    s.parse::<usize>()
}

/// Relies on `num_cpus::get_physical`: the number of physical cores, at least 1.
#[verifier::external_body]
fn physical_cores() -> (r: usize)
    ensures
        r >= 1,
{
    num_cpus::get_physical()
}


/// Reading back the text of dimensions gives the same dimensions: the text
/// reads as dimensions, splits at the comma between the two numbers, and each
/// number reads as the value it was written from.
pub proof fn lemma_dimensions_round_trip(d: Dimensions)
    ensures
        parses_as_dimensions(dimensions_text(d)),
        first_comma(dimensions_text(d)) == Some(decimal(d.width as nat).len() as int),
        numeral_value(dimensions_text(d).take(decimal(d.width as nat).len() as int)) == d.width,
        numeral_value(dimensions_text(d).skip(decimal(d.width as nat).len() as int + 1))
            == d.height,
{
    let w = decimal(d.width as nat);
    let h = decimal(d.height as nat);
    let t = dimensions_text(d);
    lemma_decimal(d.width as nat);
    lemma_decimal(d.height as nat);
    let c = w.len() as int;
    assert(t[c] == ',');
    assert forall|j: int| 0 <= j < c implies t[j] != ',' by {
        assert(t[j] == w[j]);
        assert(is_digit(w[j]));
    }
    let k = choose|k: int| 0 <= k < t.len() && t[k] == ',' && forall|j: int| 0 <= j < k ==> t[j] != ',';
    if k < c {
        assert(t[k] == w[k]);
        assert(is_digit(w[k]));
    }
    assert(k == c);
    assert(t.take(c) =~= w);
    assert(t.skip(c + 1) =~= h);
    assert(is_digit(w[0]));
    assert(is_digit(h[0]));
    assert(numeral_digits(w) == w);
    assert(numeral_digits(h) == h);
}
impl From<std::num::ParseIntError> for ParseDimensionsError {
    fn from(err: std::num::ParseIntError) -> (r: Self) {
        ParseDimensionsError::ParseIntError(err)
    }
}

impl vstd::std_specs::convert::FromSpecImpl<std::num::ParseIntError> for ParseDimensionsError {
    open spec fn obeys_from_spec() -> bool {
        true
    }

    open spec fn from_spec(v: std::num::ParseIntError) -> Self {
        ParseDimensionsError::ParseIntError(v)
    }
}

impl ParseDimensionsError {
    /// A description of the error.
    pub fn to_string(&self) -> (r: String)
        ensures
            self is MissingComma ==> r@ == "dimensions value is missing a comma"@,
    {
        match self {
            ParseDimensionsError::ParseIntError(err) => err.to_string(),
            ParseDimensionsError::MissingComma => String::from_str(
                "dimensions value is missing a comma",
            ),
        }
    }
}

impl Dimensions {
    /// Reads `WIDTH,HEIGHT`: the text is split at its first comma and each part
    /// is read as a decimal `usize`.
    pub fn parse(s: &str) -> (r: Result<Dimensions, ParseDimensionsError>)
        ensures
            first_comma(s@) is None <==> (r is Err && r->Err_0 is MissingComma),
            r is Ok <==> parses_as_dimensions(s@),
            r is Ok ==> ({
                let i = first_comma(s@)->Some_0;
                &&& r->Ok_0.width == numeral_value(s@.take(i))
                &&& r->Ok_0.height == numeral_value(s@.skip(i + 1))
            }),
    {
        let n = s.unicode_len();
        let mut comma: Option<usize> = None;
        let mut i: usize = 0;
        while i < n && comma.is_none()
            invariant
                n == s@.len(),
                i <= n,
                comma is Some ==> ({
                    let c = comma->Some_0 as int;
                    &&& c < n
                    &&& s@[c] == ','
                    &&& forall|j: int| 0 <= j < c ==> s@[j] != ','
                }),
                comma is None ==> forall|j: int| 0 <= j < i ==> s@[j] != ',',
            decreases n - i,
        {
            if s.get_char(i) == ',' {
                comma = Some(i);
            }
            i = i + 1;
        }
        match comma {
            None => {
                proof {
                    assert(!exists|j: int| 0 <= j < s@.len() && s@[j] == ',');
                }
                Err(ParseDimensionsError::MissingComma)
            },
            Some(c) => {
                proof {
                    let k = choose|k: int|
                        0 <= k < s@.len() && s@[k] == ',' && forall|j: int|
                            0 <= j < k ==> s@[j] != ',';
                    assert(k == c);
                }
                let prefix = s.substring_char(0, c);
                let suffix = s.substring_char(c + 1, n);
                proof {
                    assert(prefix@ == s@.take(c as int));
                    assert(suffix@ =~= s@.skip(c + 1));
                }
                let width = match parse_usize(prefix) {
                    Ok(v) => v,
                    Err(e) => return Err(ParseDimensionsError::from(e)),
                };
                let height = match parse_usize(suffix) {
                    Ok(v) => v,
                    Err(e) => return Err(ParseDimensionsError::from(e)),
                };
                Ok(Dimensions { width, height })
            },
        }
    }

    /// The text `WIDTH,HEIGHT`, each number in decimal.
    pub fn to_string(&self) -> (r: String)
        ensures
            r@ == dimensions_text(*self),
    {
        let mut s = String::new();
        push_decimal(&mut s, self.width);
        proof {
            reveal_strlit(",");
        }
        s.append(",");
        push_decimal(&mut s, self.height);
        proof {
            assert(s@ =~= dimensions_text(*self));
        }
        s
    }
}

impl std::str::FromStr for Dimensions {
    type Err = ParseDimensionsError;

    fn from_str(s: &str) -> Result<Self, Self::Err> {
        Dimensions::parse(s)
    }
}

impl Cli {
    /// The number of worker threads: the one asked for, else the number of
    /// physical cores.
    pub fn thread_count(&self) -> (r: usize)
        ensures
            self.num_threads is Some ==> r == self.num_threads->Some_0,
            self.num_threads is None ==> r >= 1,
    {
        match self.num_threads {
            Some(n) => n,
            None => physical_cores(),
        }
    }
}

} // verus!
