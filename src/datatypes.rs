//! Primitive field kinds and the value synthesizer behind them.
use vstd::prelude::*;
use fake::Fake;
use rand::Rng;

verus! {

/// Every kind of primitive value that a model field can ask for.
///
/// Variants with fields take parameters, written in a schema as a nested map
/// whose single key names the variant, for example
/// `{ "NumberBetween": { "min": 18, "max": 25 } }`.
#[derive(Clone, Debug)]
pub enum RandomData {
    /// A latin first name.
    FirstName,
    /// A latin surname.
    LastName,
    /// A first name and a surname separated by a space.
    FullName,
    /// A safe email address.
    Email,
    /// An integer written with exactly `digits` decimal digits, the first of them not zero.
    Number { digits: usize },
    /// An integer from `min` (inclusive) up to `max` (exclusive).
    NumberBetween { min: usize, max: usize },
    /// One paragraph of lorem ipsum text with `amount` sentences (one when absent).
    Paragraphs { amount: Option<usize> },
    /// One paragraph of lorem ipsum text with a single sentence.
    Paragraph,
    /// One sentence of lorem ipsum text with `amount` words (one when absent).
    Sentences { amount: Option<usize> },
    /// One sentence of lorem ipsum text with a single word.
    Sentence,
    /// A company name.
    Company,
    /// A city name.
    City,
    /// A street address.
    StreetAddress,
    /// A latitude.
    Latitude,
    /// A longitude.
    Longitude,
    /// A JSON array `[latitude, longitude]`.
    LatLong,
    /// A JSON array `[longitude, latitude]`.
    LongLat,
    /// A WKT point `POINT(longitude latitude)`.
    GeoPoint,
    /// A postcode.
    Postcode,
    /// Street, city and postcode separated by commas.
    FullAddress,
    /// A version 4 UUID.
    UUID4,
    /// A phone number.
    PhoneNumber,
    /// A picture URL of the given size, optionally in greyscale. With one side
    /// absent the picture is a square of the other; with both absent, 200 by 200.
    LoremPicsum { width: Option<usize>, height: Option<usize>, grayscale: Option<bool> },
    /// The literal `null`.
    NullValue,
    /// The given text, unchanged.
    String { content: String },
    /// A cross-model reference; as a primitive it yields `null`.
    Reference { model: String, field: String },
}

/// The decimal digit `d` as a character.
pub open spec fn digit_char(d: nat) -> char {
    if d == 0 {
        '0'
    } else if d == 1 {
        '1'
    } else if d == 2 {
        '2'
    } else if d == 3 {
        '3'
    } else if d == 4 {
        '4'
    } else if d == 5 {
        '5'
    } else if d == 6 {
        '6'
    } else if d == 7 {
        '7'
    } else if d == 8 {
        '8'
    } else {
        '9'
    }
}

/// `n` written in decimal, without leading zeros.
pub open spec fn decimal(n: nat) -> Seq<char>
    decreases n,
{
    if n < 10 {
        seq![digit_char(n)]
    } else {
        decimal(n / 10).push(digit_char(n % 10))
    }
}

/// Whether `c` is a decimal digit.
pub open spec fn is_digit(c: char) -> bool {
    '0' <= c <= '9'
}

/// The picture URL of the given size, in greyscale when `grey`.
pub open spec fn picsum_url(width: nat, height: nat, grey: bool) -> Seq<char> {
    "https://picsum.photos/"@ + (if grey { "g/"@ } else { Seq::empty() }) + decimal(width) + "/"@ + decimal(height)
}

/// Whether `t` is `open`, some text, `sep`, some text and `close`, in that order.
pub open spec fn is_pair_text(t: Seq<char>, open: Seq<char>, sep: Seq<char>, close: Seq<char>) -> bool {
    exists|a: Seq<char>, b: Seq<char>| t == open + a + sep + b + close
}

/// The shape of the text a composite kind yields, if it is one.
pub open spec fn composite_shape(d: RandomData, t: Seq<char>) -> bool {
    match d {
        RandomData::LatLong => is_pair_text(t, "["@, ", "@, "]"@),
        RandomData::LongLat => is_pair_text(t, "["@, ", "@, "]"@),
        RandomData::GeoPoint => is_pair_text(t, "POINT("@, " "@, ")"@),
        RandomData::FullAddress => exists|a: Seq<char>, b: Seq<char>, c: Seq<char>| t == a + ", "@ + b + ", "@ + c,
        _ => true,
    }
}

/// A side of a picture: as given, else the other side, else 200.
pub open spec fn picture_side(side: Option<usize>, other: Option<usize>) -> nat {
    match side {
        Some(s) => s as nat,
        None => match other {
            Some(o) => o as nat,
            None => 200,
        },
    }
}

/// Whether the kind yields one lorem ipsum sentence.
pub open spec fn yields_sentence(d: RandomData) -> bool {
    match d {
        RandomData::Sentence => true,
        RandomData::Sentences { amount: None } => true,
        RandomData::Sentences { amount: Some(n) } => n < usize::MAX,
        _ => false,
    }
}

/// What a primitive yields when no randomness is involved.
pub open spec fn fixed_text(d: RandomData) -> Option<Seq<char>> {
    match d {
        RandomData::NullValue => Some(seq!['n', 'u', 'l', 'l']),
        RandomData::Reference { .. } => Some(seq!['n', 'u', 'l', 'l']),
        RandomData::String { content } => Some(content@),
        RandomData::LoremPicsum { width, height, grayscale } => Some(
            picsum_url(picture_side(width, height), picture_side(height, width), grayscale == Some(true)),
        ),
        RandomData::NumberBetween { min, max } => if min < max { None } else { Some(seq!['n', 'u', 'l', 'l']) },
        RandomData::Paragraphs { amount: Some(n) } => if n < usize::MAX { None } else { Some(seq!['n', 'u', 'l', 'l']) },
        RandomData::Sentences { amount: Some(n) } => if n < usize::MAX { None } else { Some(seq!['n', 'u', 'l', 'l']) },
        _ => None,
    }
}

/// Relies on `ToString` for `usize`, which writes the number in decimal.
#[verifier::external_body]
fn decimal_text(n: usize) -> (r: String)
    ensures
        r@ == decimal(n as nat),
{
    n.to_string()
}

/// Relies on rand's `Rng::gen_range` on the thread-local generator: a number
/// from `low` up to, but not including, `high`.
#[verifier::external_body]
fn random_below(low: usize, high: usize) -> (r: usize)
    requires
        low < high,
    ensures
        low <= r < high,
{
    rand::thread_rng().gen_range(low, high)
}

/// Relies on fake's `faker::name::en::FirstName` for a random first name.
#[verifier::external_body]
fn fake_first_name() -> String {
    fake::faker::name::en::FirstName().fake::<String>()
}

/// Relies on fake's `faker::name::en::LastName` for a random surname.
#[verifier::external_body]
fn fake_last_name() -> String {
    fake::faker::name::en::LastName().fake::<String>()
}

/// Relies on fake's `faker::name::en::Name` for a random full name.
#[verifier::external_body]
fn fake_full_name() -> String {
    fake::faker::name::en::Name().fake::<String>()
}

/// Relies on fake's `faker::internet::en::SafeEmail` for a random email address.
#[verifier::external_body]
fn fake_safe_email() -> String {
    fake::faker::internet::en::SafeEmail().fake::<String>()
}

/// Relies on fake's `faker::lorem::en::Paragraph`: a number of sentences, drawn from `low..high`, one per line.
#[verifier::external_body]
fn fake_paragraph(low: usize, high: usize) -> String
    requires
        low < high,
{
    fake::faker::lorem::en::Paragraph(low..high).fake::<String>()
}

/// Relies on fake's `faker::lorem::en::Sentence`: a number of words, drawn from
/// `low..high`, joined by spaces and closed by a full stop.
#[verifier::external_body]
fn fake_sentence(low: usize, high: usize) -> (r: String)
    requires
        low < high,
    ensures
        r@.len() > 0,
        r@.last() == '.',
{
    fake::faker::lorem::en::Sentence(low..high).fake::<String>()
}

/// Relies on fake's `faker::company::en::CompanyName` for a random company name.
#[verifier::external_body]
fn fake_company() -> String {
    fake::faker::company::en::CompanyName().fake::<String>()
}

/// Relies on fake's `faker::address::en::CityName` for a random city name.
#[verifier::external_body]
fn fake_city() -> String {
    fake::faker::address::en::CityName().fake::<String>()
}

/// Relies on fake's `faker::address::en::StreetName` for a random street name.
#[verifier::external_body]
fn fake_street() -> String {
    fake::faker::address::en::StreetName().fake::<String>()
}

/// Relies on fake's `faker::address::en::Latitude` for a random latitude.
#[verifier::external_body]
fn fake_latitude() -> String {
    fake::faker::address::en::Latitude().fake::<String>()
}

/// Relies on fake's `faker::address::en::Longitude` for a random longitude.
#[verifier::external_body]
fn fake_longitude() -> String {
    fake::faker::address::en::Longitude().fake::<String>()
}

/// Relies on fake's `faker::address::en::PostCode` for a random postcode.
#[verifier::external_body]
fn fake_postcode() -> String {
    fake::faker::address::en::PostCode().fake::<String>()
}

/// Relies on fake's `faker::phone_number::en::PhoneNumber` for a random phone number.
#[verifier::external_body]
fn fake_phone_number() -> String {
    fake::faker::phone_number::en::PhoneNumber().fake::<String>()
}

/// Relies on uuid's `Uuid::new_v4` for a random identifier, written out through
/// its `Display` in the 36-character hyphenated form.
#[verifier::external_body]
fn new_uuid_v4() -> (r: String)
    ensures
        r@.len() == 36,
{
    uuid::Uuid::new_v4().to_string()
}

/// The text `"null"`.
pub(crate) fn null_text() -> (r: String)
    ensures
        r@ == seq!['n', 'u', 'l', 'l'],
{
    proof {
        reveal_strlit("null");
    }
    String::from_str("null")
}

/// A random integer written with exactly `length` decimal digits, the first
/// of them not zero; empty for length zero.
pub fn number_with_length(length: usize) -> (r: String)
    ensures
        r@.len() == length,
        forall|i: int| 0 <= i < length ==> is_digit(#[trigger] r@[i]),
        length > 0 ==> r@[0] != '0',
{
    let mut buffer = String::new();
    let mut i: usize = 0;
    while i < length
        invariant
            i <= length,
            buffer@.len() == i,
            forall|j: int| 0 <= j < i ==> is_digit(#[trigger] buffer@[j]),
            i > 0 ==> buffer@[0] != '0',
        decreases length - i,
    {
        let low: usize = if i == 0 { 1 } else { 0 };
        let d = random_below(low, 10);
        let digit = decimal_text(d);
        assert(digit@ == seq![digit_char(d as nat)]);
        let ghost before = buffer@;
        buffer = buffer.concat(digit.as_str());
        assert(buffer@ == before + seq![digit_char(d as nat)]);
        assert(buffer@[i as int] == digit_char(d as nat));
        i = i + 1;
    }
    buffer
}

/// Joins `a`, `sep` and `b`.
fn join(a: String, sep: &str, b: &String) -> (r: String)
    ensures
        r@ == a@ + sep@ + b@,
{
    let r = a.concat(sep);
    r.concat(b.as_str())
}

/// `[first, second]`.
fn bracketed(first: String, second: String) -> (r: String)
    ensures
        r@ == "["@ + first@ + ", "@ + second@ + "]"@,
{
    let ghost a = first@;
    let inner = join(first, ", ", &second);
    let r = join(join(String::new(), "[", &inner), "]", &String::new());
    assert(r@ =~= "["@ + a + ", "@ + second@ + "]"@);
    r
}

/// Generates a value of the kind `spec` asks for. Kinds without randomness
/// give their fixed text; a number range that is empty, and a lorem amount too
/// large to step past, give `"null"`.
pub fn generate_fake_data(spec: &RandomData) -> (r: String)
    ensures
        fixed_text(*spec) is Some ==> r@ == fixed_text(*spec)->Some_0,
        *spec matches RandomData::Number { digits } ==> r@.len() == digits,
        composite_shape(*spec, r@),
        yields_sentence(*spec) ==> r@.len() > 0 && r@.last() == '.',
        *spec is UUID4 ==> r@.len() == 36,
        *spec matches RandomData::NumberBetween { min, max } ==> (min < max ==> exists|x: nat| min <= x < max && r@ == decimal(x)),
{
    match spec {
        RandomData::FirstName => fake_first_name(),
        RandomData::LastName => fake_last_name(),
        RandomData::FullName => fake_full_name(),
        RandomData::Email => fake_safe_email(),
        RandomData::Number { digits } => number_with_length(*digits),
        RandomData::NumberBetween { min, max } => {
            if *min < *max {
                let x = random_below(*min, *max);
                decimal_text(x)
            } else {
                null_text()
            }
        },
        RandomData::Paragraph => fake_paragraph(1, 2),
        RandomData::Paragraphs { amount } => {
            let n: usize = match amount {
                Some(n) => *n,
                None => 1,
            };
            if n < usize::MAX {
                fake_paragraph(n, n + 1)
            } else {
                null_text()
            }
        },
        RandomData::Sentence => fake_sentence(1, 2),
        RandomData::Sentences { amount } => {
            let n: usize = match amount {
                Some(n) => *n,
                None => 1,
            };
            if n < usize::MAX {
                fake_sentence(n, n + 1)
            } else {
                null_text()
            }
        },
        RandomData::Company => fake_company(),
        RandomData::City => fake_city(),
        RandomData::StreetAddress => fake_street(),
        RandomData::Latitude => fake_latitude(),
        RandomData::Longitude => fake_longitude(),
        RandomData::LatLong => bracketed(fake_latitude(), fake_longitude()),
        RandomData::LongLat => bracketed(fake_longitude(), fake_latitude()),
        RandomData::GeoPoint => {
            let long = fake_longitude();
            let lat = fake_latitude();
            let inner = join(long, " ", &lat);
            let r = join(join(String::new(), "POINT(", &inner), ")", &String::new());
            assert(r@ =~= "POINT("@ + long@ + " "@ + lat@ + ")"@);
            r
        },
        RandomData::Postcode => fake_postcode(),
        RandomData::FullAddress => {
            let street = fake_street();
            let city = fake_city();
            let postcode = fake_postcode();
            let street_city = join(street, ", ", &city);
            let r = join(street_city, ", ", &postcode);
            assert(r@ =~= street@ + ", "@ + city@ + ", "@ + postcode@);
            r
        },
        RandomData::UUID4 => new_uuid_v4(),
        RandomData::PhoneNumber => fake_phone_number(),
        RandomData::LoremPicsum { width, height, grayscale } => {
            let w: usize = match (width, height) {
                (Some(w), _) => *w,
                (None, Some(h)) => *h,
                (None, None) => 200,
            };
            let h: usize = match (height, width) {
                (Some(h), _) => *h,
                (None, Some(w)) => *w,
                (None, None) => 200,
            };
            let grey: bool = match grayscale {
                Some(g) => *g,
                None => false,
            };
            let base = String::from_str("https://picsum.photos/");
            let prefix = if grey {
                base.concat("g/")
            } else {
                base
            };
            let r = join(prefix.concat(decimal_text(w).as_str()), "/", &decimal_text(h));
            assert(r@ =~= picsum_url(w as nat, h as nat, grey));
            r
        },
        RandomData::NullValue => null_text(),
        RandomData::String { content } => content.clone(),
        RandomData::Reference { .. } => null_text(),
    }
}

impl RandomData {
    /// Consumes the kind and generates a value of it.
    pub fn into_data(self) -> (r: String)
        ensures
            fixed_text(self) is Some ==> r@ == fixed_text(self)->Some_0,
            self matches RandomData::Number { digits } ==> r@.len() == digits,
            composite_shape(self, r@),
    {
        generate_fake_data(&self)
    }

    /// Generates a value of this kind.
    pub fn to_string(&self) -> (r: String)
        ensures
            fixed_text(*self) is Some ==> r@ == fixed_text(*self)->Some_0,
            *self matches RandomData::Number { digits } ==> r@.len() == digits,
            composite_shape(*self, r@),
    {
        generate_fake_data(self)
    }
}

} // verus!
