use vstd::prelude::*;
use vstd::string::*;
use vstd::utf8::*;

verus! {

/// How many bytes of a file name a `LevelFileName` keeps.
pub const NAME_CAPACITY: usize = 12;

/// The largest index `<= n` at which `b` may be cut without splitting a character.
pub open spec fn boundary_at_or_below(b: Seq<u8>, n: int) -> int
    decreases n,
{
    if n <= 0 {
        0
    } else if is_char_boundary(b, n) {
        n
    } else {
        boundary_at_or_below(b, n - 1)
    }
}

/// The bytes of a file name that an identifier keeps: the longest run of whole
/// characters from the start that fits in `NAME_CAPACITY` bytes.
pub open spec fn truncate_name(b: Seq<u8>) -> Seq<u8> {
    let n = if b.len() < NAME_CAPACITY { b.len() as int } else { NAME_CAPACITY as int };
    b.take(boundary_at_or_below(b, n))
}

/// A fixed-capacity identifier of a level file, compared by the bytes it holds.
/// The bytes past its length are zero, so the derived order is that of its
/// byte content.
#[derive(Copy, Clone, Debug, Hash, PartialOrd, Ord)]
pub struct LevelFileName {
    data: [u8; 12],
    len: usize,
}

impl View for LevelFileName {
    type V = Seq<u8>;

    closed spec fn view(&self) -> Seq<u8> {
        self.data@.take(self.len as int)
    }
}

impl LevelFileName {
    #[verifier::type_invariant]
    spec fn inv(self) -> bool {
        &&& self.len <= NAME_CAPACITY
        &&& forall|i: int| self.len <= i < NAME_CAPACITY ==> self.data@[i] == 0u8
        &&& valid_utf8(self.data@.take(self.len as int))
    }

    /// Builds the identifier of `file_name`, keeping the longest prefix of whole
    /// characters that fits in `NAME_CAPACITY` bytes.
    pub fn from_str(file_name: &str) -> (r: Self)
        ensures
            r@ == truncate_name(file_name.spec_bytes()),
    {
        let bytes = file_name.as_bytes();
        let ghost b = bytes@;
        proof {
            encode_utf8_valid_utf8(file_name@);
        }
        let mut n: usize = if bytes.len() < NAME_CAPACITY { bytes.len() } else { NAME_CAPACITY };
        while n > 0 && !file_name.is_char_boundary(n)
            invariant
                n <= NAME_CAPACITY,
                n <= b.len(),
                b == file_name.spec_bytes(),
                boundary_at_or_below(b, n as int) == boundary_at_or_below(
                    b,
                    if b.len() < NAME_CAPACITY { b.len() as int } else { NAME_CAPACITY as int },
                ),
            decreases n,
        {
            n = n - 1;
        }
        assert(boundary_at_or_below(b, n as int) == n);
        let mut data = [0u8; 12];
        let mut i: usize = 0;
        while i < n
            invariant
                i <= n,
                n <= NAME_CAPACITY,
                n <= b.len(),
                b == bytes@,
                forall|j: int| 0 <= j < i ==> data@[j] == b[j],
                forall|j: int| i <= j < NAME_CAPACITY ==> data@[j] == 0u8,
            decreases n - i,
        {
            data[i] = bytes[i];
            i = i + 1;
        }
        proof {
            valid_utf8_split(b, n as int);
            assert(data@.take(n as int) =~= b.subrange(0, n as int));
            assert(b.take(n as int) =~= b.subrange(0, n as int));
        }
        LevelFileName { data, len: n }
    }

    /// The identifier as text.
    pub fn as_str(&self) -> (r: &str)
        ensures
            r.spec_bytes() == self@,
    {
        proof {
            use_type_invariant(self);
        }
        let s = vstd::slice::slice_subrange(self.data.as_slice(), 0, self.len);
        assert(s@ =~= self@);
        match str_from_utf8(s) {
            Some(t) => t,
            None => {
                assert(false);
                ""
            },
        }
    }

    /// Whether two identifiers hold the same bytes.
    pub fn same_as(&self, other: &Self) -> (r: bool)
        ensures
            r == (self@ == other@),
    {
        proof {
            use_type_invariant(self);
            use_type_invariant(other);
        }
        if self.len != other.len {
            assert(self@.len() != other@.len());
            return false;
        }
        let mut i: usize = 0;
        while i < self.len
            invariant
                i <= self.len,
                self.len == other.len,
                self.len <= NAME_CAPACITY,
                forall|j: int| 0 <= j < i ==> self.data@[j] == other.data@[j],
            decreases self.len - i,
        {
            if self.data[i] != other.data[i] {
                assert(self@[i as int] != other@[i as int]);
                return false;
            }
            i = i + 1;
        }
        assert(self@ =~= other@);
        true
    }

    /// The identifier of the level file `pre`, zero-padded `num`, `.lev`.
    pub fn fmt_level_name(pre: &str, pad: usize, num: i32) -> (r: Self)
        requires
            decimal_text(num as int).len() <= pad,
        ensures
            r@ == truncate_name(encode_utf8(level_name_text(pre@, pad as int, num as int))),
    {
        let s = Self::fmt_level_name_string(pre, pad, num);
        Self::from_str(s.as_str())
    }

    /// The text `pre`, then `num` in decimal padded with zeros on the left to
    /// `pad` characters, then `.lev`.
    pub fn fmt_level_name_string(pre: &str, pad: usize, num: i32) -> (r: String)
        requires
            decimal_text(num as int).len() <= pad,
        ensures
            r@ == level_name_text(pre@, pad as int, num as int),
    {
        let num_text = decimal(num);
        let num_len = num_text.as_str().unicode_len();
        let mut s = String::from_str(pre);
        let mut i: usize = 0;
        proof {
            reveal_strlit("0");
            reveal_strlit(".lev");
        }
        while i < pad - num_len
            invariant
                i <= pad - num_len,
                num_len <= pad,
                num_len == decimal_text(num as int).len(),
                s@ == pre@ + zeros(i as int),
                "0"@ == seq!['0'],
            decreases pad - num_len - i,
        {
            s.append("0");
            assert(zeros(i + 1) =~= zeros(i as int) + seq!['0']);
            i = i + 1;
        }
        s.append(num_text.as_str());
        s.append(".lev");
        assert(".lev"@ =~= level_suffix());
        s
    }
}

impl PartialEq for LevelFileName {
    fn eq(&self, other: &Self) -> (r: bool) {
        self.same_as(other)
    }
}

impl vstd::std_specs::cmp::PartialEqSpecImpl for LevelFileName {
    open spec fn obeys_eq_spec() -> bool {
        true
    }

    open spec fn eq_spec(&self, other: &Self) -> bool {
        self@ == other@
    }
}

impl Eq for LevelFileName {
}

/// The text `pre`, then `num` in decimal padded with zeros on the left to `pad`
/// characters, then `.lev`.
pub fn format_level_name(pre: &str, pad: usize, num: i32) -> (r: String)
    requires
        decimal_text(num as int).len() <= pad,
    ensures
        r@ == level_name_text(pre@, pad as int, num as int),
{
    LevelFileName::fmt_level_name_string(pre, pad, num)
}

/// `n` zero digits.
pub open spec fn zeros(n: int) -> Seq<char> {
    Seq::new(n as nat, |i: int| '0')
}

/// The decimal digit `d`.
pub open spec fn digit_char(d: int) -> char {
    seq!['0', '1', '2', '3', '4', '5', '6', '7', '8', '9'][d]
}

/// The digits of `n` in decimal, without leading zeros.
pub open spec fn decimal_digits(n: nat) -> Seq<char>
    decreases n,
{
    if n < 10 {
        seq![digit_char(n as int)]
    } else {
        decimal_digits(n / 10) + seq![digit_char((n % 10) as int)]
    }
}

/// `n` in decimal, with a leading `-` when it is negative.
pub open spec fn decimal_text(n: int) -> Seq<char> {
    if n < 0 {
        seq!['-'] + decimal_digits((-n) as nat)
    } else {
        decimal_digits(n as nat)
    }
}

/// The extension of a level file, with its dot.
pub open spec fn level_suffix() -> Seq<char> {
    seq!['.', 'l', 'e', 'v']
}

/// The name of a numbered level file.
pub open spec fn level_name_text(pre: Seq<char>, pad: int, num: int) -> Seq<char> {
    pre + zeros(pad - decimal_text(num).len()) + decimal_text(num) + level_suffix()
}

/// Whether a directory entry named `name` has the level-file extension: a
/// non-empty stem, then `.lev`.
pub open spec fn is_level_file_spec(name: Seq<char>) -> bool {
    name.len() > level_suffix().len() && name.subrange(
        name.len() - level_suffix().len(),
        name.len() as int,
    ) == level_suffix()
}

/// Whether a directory entry named `name` is a level file.
pub fn is_level_file_name(name: &str) -> (r: bool)
    ensures
        r == is_level_file_spec(name@),
{
    let n = name.unicode_len();
    if n <= 4 {
        return false;
    }
    let r = name.get_char(n - 4) == '.' && name.get_char(n - 3) == 'l' && name.get_char(n - 2)
        == 'e' && name.get_char(n - 1) == 'v';
    assert(r == (name@.subrange(n - 4, n as int) =~= level_suffix()));
    r
}

/// The number of characters of `n` in decimal.
pub fn decimal_len(n: i32) -> (r: usize)
    ensures
        r == decimal_text(n as int).len(),
{
    let neg = n < 0;
    let mut m: u32 = if neg { (0i64 - n as i64) as u32 } else { n as u32 };
    let ghost whole = if neg { -(n as int) } else { n as int };
    assert(m == whole);
    let mut count: usize = 1;
    while m >= 10
        invariant
            1 <= count,
            0 <= whole <= 2147483648,
            count - 1 + decimal_digits(m as nat).len() == decimal_digits(whole as nat).len(),
        decreases m,
    {
        proof {
            lemma_digits_len_bound(whole as nat);
        }
        assert(decimal_digits(m as nat).len() == decimal_digits((m / 10) as nat).len() + 1);
        m = m / 10;
        count = count + 1;
    }
    proof {
        lemma_digits_len_bound(whole as nat);
    }
    if neg {
        count + 1
    } else {
        count
    }
}

proof fn lemma_digits_len_bound(n: nat)
    ensures
        1 <= decimal_digits(n).len() <= n + 1,
    decreases n,
{
    if n >= 10 {
        lemma_digits_len_bound(n / 10);
    }
}

/// Relies on `std::str::from_utf8`: it succeeds exactly on valid UTF-8, and the
/// text it returns is made of those bytes.
#[verifier::external_body]
fn str_from_utf8(b: &[u8]) -> (r: Option<&str>)
    ensures
        r is Some <==> valid_utf8(b@),
        r matches Some(s) ==> s.spec_bytes() == b@,
{
    std::str::from_utf8(b).ok()
}

/// Relies on the `Display` of `i32` through `format!`: the number in decimal,
/// with a `-` before a negative one.
#[verifier::external_body]
fn decimal(n: i32) -> (r: String)
    ensures
        r@ == decimal_text(n as int),
{
    format!("{}", n)
}

} // verus!
