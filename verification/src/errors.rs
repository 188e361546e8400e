use vstd::prelude::*;

use crate::embedding::VectorId;

verus! {

#[verifier::external_type_specification]
#[verifier::external_body]
pub struct ExIoError(std::io::Error);

/// `std::io::ErrorKind` is a plain enum of unit variants; it is declared
/// with its variants, so that contracts can name the kind of an I/O error.
#[verifier::external_type_specification]
pub struct ExIoErrorKind(std::io::ErrorKind);

/// The kind that `std::io::Error::kind` reports for `e`.
pub uninterp spec fn io_error_kind(e: std::io::Error) -> std::io::ErrorKind;

/// Every way in which a database operation can fail.
#[derive(Debug)]
pub enum VectorDbError {
    CollectionAlreadyExists(String),
    CollectionNotFound(String),
    CollectionNotEmpty(String),
    InvalidCollectionName(String),
    InvalidDimension,
    DimensionMismatch { expected: usize, found: usize },
    EmptyIndex,
    InvalidSearchK { requested: usize, available: usize },
    ZeroResultsRequested,
    VectorContainsNaN,
    VectorAlreadyExists(VectorId),
    VectorNotFound(VectorId),
    CorruptedStorage(String),
    InvalidStorageRoot(String),
    Io(std::io::Error),
}

/// The mathematical model of a [`VectorDbError`]: strings are taken by
/// their characters, and an I/O error by its kind.
pub enum ErrorView {
    CollectionAlreadyExists(Seq<char>),
    CollectionNotFound(Seq<char>),
    CollectionNotEmpty(Seq<char>),
    InvalidCollectionName(Seq<char>),
    InvalidDimension,
    DimensionMismatch { expected: usize, found: usize },
    EmptyIndex,
    InvalidSearchK { requested: usize, available: usize },
    ZeroResultsRequested,
    VectorContainsNaN,
    VectorAlreadyExists(VectorId),
    VectorNotFound(VectorId),
    CorruptedStorage(Seq<char>),
    InvalidStorageRoot(Seq<char>),
    Io(std::io::ErrorKind),
}

impl View for VectorDbError {
    type V = ErrorView;

    open spec fn view(&self) -> ErrorView {
        match self {
            VectorDbError::CollectionAlreadyExists(n) => ErrorView::CollectionAlreadyExists(n@),
            VectorDbError::CollectionNotFound(n) => ErrorView::CollectionNotFound(n@),
            VectorDbError::CollectionNotEmpty(n) => ErrorView::CollectionNotEmpty(n@),
            VectorDbError::InvalidCollectionName(n) => ErrorView::InvalidCollectionName(n@),
            VectorDbError::InvalidDimension => ErrorView::InvalidDimension,
            VectorDbError::DimensionMismatch { expected, found } => ErrorView::DimensionMismatch {
                expected: *expected,
                found: *found,
            },
            VectorDbError::EmptyIndex => ErrorView::EmptyIndex,
            VectorDbError::InvalidSearchK { requested, available } => ErrorView::InvalidSearchK {
                requested: *requested,
                available: *available,
            },
            VectorDbError::ZeroResultsRequested => ErrorView::ZeroResultsRequested,
            VectorDbError::VectorContainsNaN => ErrorView::VectorContainsNaN,
            VectorDbError::VectorAlreadyExists(id) => ErrorView::VectorAlreadyExists(*id),
            VectorDbError::VectorNotFound(id) => ErrorView::VectorNotFound(*id),
            VectorDbError::CorruptedStorage(m) => ErrorView::CorruptedStorage(m@),
            VectorDbError::InvalidStorageRoot(p) => ErrorView::InvalidStorageRoot(p@),
            VectorDbError::Io(e) => ErrorView::Io(io_error_kind(*e)),
        }
    }
}

/// The decimal digit for `d < 10`.
pub open spec fn digit_char(d: nat) -> char {
    if d == 0 { '0' }
    else if d == 1 { '1' }
    else if d == 2 { '2' }
    else if d == 3 { '3' }
    else if d == 4 { '4' }
    else if d == 5 { '5' }
    else if d == 6 { '6' }
    else if d == 7 { '7' }
    else if d == 8 { '8' }
    else { '9' }
}

/// The decimal notation of `n`, without leading zeros.
pub open spec fn decimal(n: nat) -> Seq<char>
    decreases n,
{
    if n < 10 {
        seq![digit_char(n)]
    } else {
        decimal(n / 10).push(digit_char(n % 10))
    }
}

/// The text that describes an error other than an I/O error.
pub open spec fn error_message(e: ErrorView) -> Seq<char> {
    match e {
        ErrorView::CollectionAlreadyExists(n) => "collection '"@ + n + "' already exists"@,
        ErrorView::CollectionNotFound(n) => "collection '"@ + n + "' not found"@,
        ErrorView::CollectionNotEmpty(n) => "collection '"@ + n + "' is not empty"@,
        ErrorView::InvalidCollectionName(n) => "collection name '"@ + n + "' is not allowed"@,
        ErrorView::InvalidDimension => "dimension must be greater than zero"@,
        ErrorView::DimensionMismatch { expected, found } => "vector dimension mismatch: expected "@
            + decimal(expected as nat) + ", found "@ + decimal(found as nat),
        ErrorView::EmptyIndex => "cannot search empty index"@,
        ErrorView::InvalidSearchK { requested, available } => "requested "@ + decimal(
            requested as nat,
        ) + " results but only "@ + decimal(available as nat) + " vectors indexed"@,
        ErrorView::ZeroResultsRequested => "search requires at least one result"@,
        ErrorView::VectorContainsNaN => "vector contains NaN values"@,
        ErrorView::VectorAlreadyExists(id) => "vector with id "@ + decimal(id as nat)
            + " already exists in the index"@,
        ErrorView::VectorNotFound(id) => "vector with id "@ + decimal(id as nat)
            + " not found in the index"@,
        ErrorView::CorruptedStorage(m) => "corrupted storage: "@ + m,
        ErrorView::InvalidStorageRoot(p) => "storage root '"@ + p + "' is not a directory"@,
        ErrorView::Io(_) => "io error: "@,
    }
}

fn digit_str(d: u64) -> (s: &'static str)
    requires
        d < 10,
    ensures
        s@ == seq![digit_char(d as nat)],
{
    proof {
        reveal_strlit("0");
        reveal_strlit("1");
        reveal_strlit("2");
        reveal_strlit("3");
        reveal_strlit("4");
        reveal_strlit("5");
        reveal_strlit("6");
        reveal_strlit("7");
        reveal_strlit("8");
        reveal_strlit("9");
    }
    if d == 0 { "0" }
    else if d == 1 { "1" }
    else if d == 2 { "2" }
    else if d == 3 { "3" }
    else if d == 4 { "4" }
    else if d == 5 { "5" }
    else if d == 6 { "6" }
    else if d == 7 { "7" }
    else if d == 8 { "8" }
    else { "9" }
}

/// Appends the decimal notation of `n` to `s`.
pub fn push_decimal(s: &mut String, n: u64)
    ensures
        final(s)@ == old(s)@ + decimal(n as nat),
    decreases n,
{
    if n >= 10 {
        push_decimal(s, n / 10);
    }
    s.append(digit_str(n % 10));
    proof {
        if n >= 10 {
            assert(old(s)@ + decimal(n as nat) =~= old(s)@ + decimal((n / 10) as nat) + seq![
                digit_char((n % 10) as nat),
            ]);
        } else {
            assert(decimal(n as nat) == seq![digit_char(n as nat)]);
        }
    }
}

/// The text of an I/O error, as its `Display` implementation writes it.
/// Nothing is stated of the text.
#[verifier::external_body]
fn io_error_text(err: &std::io::Error) -> String {
    err.to_string()
}

impl From<std::io::Error> for VectorDbError {
    /// Wraps an I/O error.
    fn from(error: std::io::Error) -> (e: Self) {
        VectorDbError::Io(error)
    }
}

impl vstd::std_specs::convert::FromSpecImpl<std::io::Error> for VectorDbError {
    open spec fn obeys_from_spec() -> bool {
        true
    }

    open spec fn from_spec(v: std::io::Error) -> VectorDbError {
        VectorDbError::Io(v)
    }
}

impl VectorDbError {
    /// The human-readable description of this error.
    pub fn to_string(&self) -> (s: String)
        ensures
            !(self is Io) ==> s@ == error_message(self@),
            self is Io ==> s@.len() >= 10 && s@.subrange(0, 10) == "io error: "@,
    {
        let mut s = String::new();
        match self {
            VectorDbError::CollectionAlreadyExists(name) => {
                s.append("collection '");
                s.append(name.as_str());
                s.append("' already exists");
            },
            VectorDbError::CollectionNotFound(name) => {
                s.append("collection '");
                s.append(name.as_str());
                s.append("' not found");
            },
            VectorDbError::CollectionNotEmpty(name) => {
                s.append("collection '");
                s.append(name.as_str());
                s.append("' is not empty");
            },
            VectorDbError::InvalidCollectionName(name) => {
                s.append("collection name '");
                s.append(name.as_str());
                s.append("' is not allowed");
            },
            VectorDbError::InvalidDimension => {
                s.append("dimension must be greater than zero");
            },
            VectorDbError::DimensionMismatch { expected, found } => {
                s.append("vector dimension mismatch: expected ");
                push_decimal(&mut s, *expected as u64);
                s.append(", found ");
                push_decimal(&mut s, *found as u64);
            },
            VectorDbError::EmptyIndex => {
                s.append("cannot search empty index");
            },
            VectorDbError::InvalidSearchK { requested, available } => {
                s.append("requested ");
                push_decimal(&mut s, *requested as u64);
                s.append(" results but only ");
                push_decimal(&mut s, *available as u64);
                s.append(" vectors indexed");
            },
            VectorDbError::ZeroResultsRequested => {
                s.append("search requires at least one result");
            },
            VectorDbError::VectorContainsNaN => {
                s.append("vector contains NaN values");
            },
            VectorDbError::VectorAlreadyExists(id) => {
                s.append("vector with id ");
                push_decimal(&mut s, *id);
                s.append(" already exists in the index");
            },
            VectorDbError::VectorNotFound(id) => {
                s.append("vector with id ");
                push_decimal(&mut s, *id);
                s.append(" not found in the index");
            },
            VectorDbError::CorruptedStorage(msg) => {
                s.append("corrupted storage: ");
                s.append(msg.as_str());
            },
            VectorDbError::InvalidStorageRoot(path) => {
                s.append("storage root '");
                s.append(path.as_str());
                s.append("' is not a directory");
            },
            VectorDbError::Io(err) => {
                s.append("io error: ");
                let text = io_error_text(err);
                proof {
                    reveal_strlit("io error: ");
                    assert(s@ == "io error: "@);
                }
                s.append(text.as_str());
                assert(s@.subrange(0, 10) =~= "io error: "@);
            },
        }
        s
    }
}

/// The numeric value of a string of decimal digits.
pub open spec fn digits_value(s: Seq<char>) -> int
    decreases s.len(),
{
    if s.len() == 0 {
        0
    } else {
        digits_value(s.drop_last()) * 10 + (s.last() as int - '0' as int)
    }
}

/// The decimal notation of `n` is made of the digits `0` to `9`, reads
/// back as `n`, and starts with `0` only for zero itself.
pub proof fn lemma_decimal_reads_back(n: nat)
    ensures
        forall|i: int| 0 <= i < decimal(n).len() ==> '0' <= #[trigger] decimal(n)[i] <= '9',
        digits_value(decimal(n)) == n,
        decimal(n).len() > 0,
        decimal(n)[0] == '0' ==> n == 0,
    decreases n,
{
    let s = decimal(n);
    lemma_digit_char_value(n % 10);
    if n >= 10 {
        lemma_decimal_reads_back(n / 10);
        assert(s.drop_last() =~= decimal(n / 10));
        assert(s[0] == decimal(n / 10)[0]);
        assert(s.last() == digit_char(n % 10));
        assert(n == (n / 10) * 10 + n % 10);
        assert(digits_value(s) == digits_value(s.drop_last()) * 10 + (s.last() as int - '0' as int));
    } else {
        assert(s.drop_last() =~= Seq::<char>::empty());
        assert(n % 10 == n);
        assert(digits_value(s) == digits_value(s.drop_last()) * 10 + (s.last() as int - '0' as int));
    }
}

proof fn lemma_digit_char_value(d: nat)
    requires
        d < 10,
    ensures
        digit_char(d) as int == '0' as int + d,
        d != 0 ==> digit_char(d) != '0',
{
}

} // verus!
