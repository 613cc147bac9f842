use vstd::prelude::*;
use vstd::string::StringSliceAdditionalSpecFns;
use vstd::utf8::{encode_utf8, valid_utf8};

verus! {

/// What `base64::decode` makes of `text`: the bytes it encodes, or nothing where it is not
/// standard base64.
pub uninterp spec fn base64_decoded(text: Seq<u8>) -> Option<Seq<u8>>;

/// Relies on `base64::decode`: the standard (padded) base64 decoding of the input. It panics
/// where the input's length plus 3 overflows, which `requires` leaves out.
#[verifier::external_body]
fn decode_base64(text: &[u8]) -> (r: Option<Vec<u8>>)
    requires
        text@.len() + 3 <= usize::MAX,
    ensures
        r matches Some(v) ==> base64_decoded(text@) == Some(v@),
        r is None ==> base64_decoded(text@) is None,
{
    base64::decode(text).ok()
}

/// Relies on `String::from_utf8`: the text the bytes encode, where they are valid UTF-8.
#[verifier::external_body]
fn text_from_utf8(bytes: Vec<u8>) -> (r: Option<String>)
    ensures
        r is Some == valid_utf8(bytes@),
        r matches Some(s) ==> encode_utf8(s@) == bytes@,
{
    String::from_utf8(bytes).ok()
}

/// Whether `b` is ASCII whitespace: space, tab, line feed, form feed or carriage return.
pub open spec fn is_blank(b: u8) -> bool {
    b == 0x20 || b == 0x09 || b == 0x0A || b == 0x0C || b == 0x0D
}

/// `s` without the ASCII whitespace at either end.
pub open spec fn trimmed(s: Seq<u8>) -> Seq<u8>
    decreases s.len(),
{
    if s.len() > 0 && is_blank(s[0]) {
        trimmed(s.drop_first())
    } else if s.len() > 0 && is_blank(s.last()) {
        trimmed(s.drop_last())
    } else {
        s
    }
}

/// The byte with ASCII upper case letters made lower case.
pub open spec fn ascii_lower(b: u8) -> u8 {
    if 0x41 <= b <= 0x5A {
        (b + 0x20) as u8
    } else {
        b
    }
}

/// Whether two byte strings are equal when ASCII letters are compared without case.
pub open spec fn eq_ignore_ascii_case(a: Seq<u8>, b: Seq<u8>) -> bool {
    a.len() == b.len() && forall|i: int| 0 <= i < a.len() ==> ascii_lower(#[trigger] a[i]) == ascii_lower(b[i])
}

/// The name of the Basic scheme.
pub open spec fn basic_scheme() -> Seq<u8> {
    seq![0x42u8, 0x61u8, 0x73u8, 0x69u8, 0x63u8]
}

/// Whether `p` is the position of the first space of `s`.
pub open spec fn is_first_space(s: Seq<u8>, p: int) -> bool {
    0 <= p < s.len() && s[p] == 0x20 && forall|j: int| 0 <= j < p ==> s[j] != 0x20
}

/// The credentials an `Authorization` header value carries: the scheme is what precedes the
/// first space, the rest is base64 of the credentials; both are read without surrounding
/// whitespace, and only the Basic scheme (in any case) is taken.
pub open spec fn basic_credentials(h: Seq<u8>) -> Option<Seq<u8>> {
    if exists|p: int| is_first_space(h, p) {
        let p = choose|p: int| is_first_space(h, p);
        if eq_ignore_ascii_case(trimmed(h.subrange(0, p + 1)), basic_scheme()) {
            base64_decoded(trimmed(h.subrange(p + 1, h.len() as int)))
        } else {
            None
        }
    } else {
        None
    }
}

fn blank(b: u8) -> (r: bool)
    ensures
        r == is_blank(b),
{
    b == 0x20 || b == 0x09 || b == 0x0A || b == 0x0C || b == 0x0D
}

/// The bounds of `s[lo..hi]` without its surrounding ASCII whitespace.
fn trim_bounds(s: &[u8], lo: usize, hi: usize) -> (r: (usize, usize))
    requires
        lo <= hi <= s@.len(),
    ensures
        lo <= r.0 <= r.1 <= hi,
        s@.subrange(r.0 as int, r.1 as int) == trimmed(s@.subrange(lo as int, hi as int)),
{
    let mut a = lo;
    while a < hi && blank(s[a])
        invariant
            lo <= a <= hi <= s@.len(),
            trimmed(s@.subrange(a as int, hi as int)) == trimmed(s@.subrange(lo as int, hi as int)),
        decreases hi - a,
    {
        assert(s@.subrange(a as int, hi as int).drop_first() =~= s@.subrange(a + 1, hi as int));
        a = a + 1;
    }
    let mut b = hi;
    while b > a && blank(s[b - 1])
        invariant
            lo <= a <= b <= hi <= s@.len(),
            a == b || !is_blank(s@[a as int]),
            trimmed(s@.subrange(a as int, b as int)) == trimmed(s@.subrange(lo as int, hi as int)),
        decreases b - a,
    {
        let ghost t = s@.subrange(a as int, b as int);
        assert(t.drop_last() =~= s@.subrange(a as int, b - 1));
        assert(t[0] == s@[a as int]);
        b = b - 1;
    }
    proof {
        let t = s@.subrange(a as int, b as int);
        if a < b {
            assert(t[0] == s@[a as int]);
            assert(t.last() == s@[b - 1]);
        }
    }
    (a, b)
}

/// Whether `s[lo..hi]` spells `Basic`, ASCII letters compared without case.
fn is_basic(s: &[u8], lo: usize, hi: usize) -> (r: bool)
    requires
        lo <= hi <= s@.len(),
    ensures
        r == eq_ignore_ascii_case(s@.subrange(lo as int, hi as int), basic_scheme()),
{
    let expected: [u8; 5] = [0x62, 0x61, 0x73, 0x69, 0x63];
    if hi - lo != 5 {
        return false;
    }
    let mut i: usize = 0;
    while i < 5
        invariant
            lo + 5 == hi <= s@.len(),
            i <= 5,
            expected@ == seq![0x62u8, 0x61u8, 0x73u8, 0x69u8, 0x63u8],
            forall|j: int| 0 <= j < i ==> ascii_lower(#[trigger] s@[lo + j]) == ascii_lower(basic_scheme()[j]),
        decreases 5 - i,
    {
        let c = s[lo + i];
        let lower = if 0x41 <= c && c <= 0x5A {
            c + 0x20
        } else {
            c
        };
        if lower != expected[i] {
            proof {
                let t = s@.subrange(lo as int, hi as int);
                assert(t[i as int] == c);
            }
            return false;
        }
        i = i + 1;
    }
    proof {
        let t = s@.subrange(lo as int, hi as int);
        assert forall|j: int| 0 <= j < t.len() implies ascii_lower(#[trigger] t[j]) == ascii_lower(
            basic_scheme()[j],
        ) by {
            assert(t[j] == s@[lo + j]);
        }
    }
    true
}

/// HTTP Basic authentication against a fixed list of credentials, each of the form
/// `USERNAME:PASSWORD`.
pub struct SimplisticHTTPBasicAuth {
    credentials: Vec<String>,
    realm: String,
}

impl SimplisticHTTPBasicAuth {
    /// The accepted credentials.
    pub closed spec fn spec_credentials(&self) -> Seq<Seq<char>> {
        self.credentials@.map_values(|c: String| c@)
    }

    /// The realm named to clients that are refused.
    pub closed spec fn spec_realm(&self) -> Seq<char> {
        self.realm@
    }

    /// An authenticator accepting `credentials`, naming `realm` to clients it refuses.
    pub fn new(credentials: Vec<String>, realm: String) -> (r: Self)
        ensures
            r.spec_credentials() == credentials@.map_values(|c: String| c@),
            r.spec_realm() == realm@,
    {
        SimplisticHTTPBasicAuth { credentials, realm }
    }

    /// Whether any credentials are configured, that is whether authentication is asked for.
    pub fn is_enabled(&self) -> (r: bool)
        ensures
            r == (self.spec_credentials().len() > 0),
    {
        self.credentials.len() > 0
    }

    /// Whether `credentials` matches one of the accepted credentials exactly.
    pub fn authenticate(&self, credentials: &str) -> (r: bool)
        ensures
            r == self.spec_credentials().contains(credentials@),
    {
        let given = credentials.to_owned();
        let mut i: usize = 0;
        while i < self.credentials.len()
            invariant
                i <= self.credentials@.len(),
                given@ == credentials@,
                forall|j: int| 0 <= j < i ==> self.credentials@[j]@ != credentials@,
            decreases self.credentials@.len() - i,
        {
            if self.credentials[i] == given {
                assert(self.spec_credentials()[i as int] == credentials@);
                return true;
            }
            i = i + 1;
        }
        proof {
            if self.spec_credentials().contains(credentials@) {
                let j = choose|j: int| 0 <= j < self.spec_credentials().len() && self.spec_credentials()[j] == credentials@;
                assert(self.credentials@[j]@ == credentials@);
            }
        }
        false
    }

    /// The credentials carried by an `Authorization` header value of the Basic scheme, where
    /// they decode to text.
    pub fn credentials_from_header(value: &str) -> (r: Option<String>)
        requires
            value.spec_bytes().len() + 3 <= usize::MAX,
        ensures
            r matches Some(s) ==> basic_credentials(value.spec_bytes()) == Some(encode_utf8(s@)),
            r is None ==> basic_credentials(value.spec_bytes()) is None || !valid_utf8(
                basic_credentials(value.spec_bytes())->0,
            ),
    {
        let h = value.as_bytes();
        let mut p: usize = 0;
        while p < h.len() && h[p] != 0x20
            invariant
                p <= h@.len(),
                forall|j: int| 0 <= j < p ==> h@[j] != 0x20,
            decreases h@.len() - p,
        {
            p = p + 1;
        }
        if p == h.len() {
            proof {
                assert forall|q: int| !is_first_space(h@, q) by {
                    if is_first_space(h@, q) {
                        assert(h@[q] == 0x20);
                    }
                }
            }
            return None;
        }
        proof {
            assert(is_first_space(h@, p as int));
            let q = choose|q: int| is_first_space(h@, q);
            if q < p {
                assert(h@[q] != 0x20);
            }
            if p < q {
                assert(h@[p as int] != 0x20);
            }
        }
        let (a, b) = trim_bounds(h, 0, p + 1);
        if !is_basic(h, a, b) {
            return None;
        }
        let (c, d) = trim_bounds(h, p + 1, h.len());
        let encoded = vstd::slice::slice_subrange(h, c, d);
        let decoded = match decode_base64(encoded) {
            Some(v) => v,
            None => {
                return None;
            },
        };
        text_from_utf8(decoded)
    }

    /// Whether a request with this `Authorization` header value, if any, is let through:
    /// it carries Basic credentials that match one of the accepted ones.
    pub fn authorize(&self, header: Option<&str>) -> (r: bool)
        requires
            header matches Some(v) ==> v.spec_bytes().len() + 3 <= usize::MAX,
        ensures
            r == (header matches Some(v) && basic_credentials(v.spec_bytes()) matches Some(c)
                && valid_utf8(c) && exists|s: Seq<char>|
                encode_utf8(s) == c && #[trigger] self.spec_credentials().contains(s)),
    {
        let value = match header {
            Some(v) => v,
            None => {
                return false;
            },
        };
        match Self::credentials_from_header(value) {
            Some(c) => {
                let r = self.authenticate(c.as_str());
                proof {
                    vstd::utf8::encode_utf8_valid_utf8(c@);
                    if r {
                        assert(self.spec_credentials().contains(c@));
                    }
                    if !r {
                        assert forall|s: Seq<char>|
                            encode_utf8(s) == encode_utf8(c@) implies !#[trigger] self.spec_credentials().contains(s) by {
                            vstd::utf8::encode_utf8_decode_utf8(s);
                            vstd::utf8::encode_utf8_decode_utf8(c@);
                        }
                    }
                }
                r
            },
            None => false,
        }
    }

    /// The `WWW-Authenticate` header value sent with a refusal: `Basic realm="<realm>",
    /// charset="UTF-8"`.
    pub fn challenge(&self) -> (r: String)
        ensures
            r@ == "Basic realm=\""@ + self.spec_realm() + "\", charset=\"UTF-8\""@,
    {
        let mut s = <String as StringExecFns>::from_str("Basic realm=\"");
        s.append(self.realm.as_str());
        s.append("\", charset=\"UTF-8\"");
        s
    }
}

} // verus!
