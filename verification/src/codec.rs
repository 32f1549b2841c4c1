//! The vCard 4.0 codec: bidirectional conversion between a contact
//! record and a vCard text blob.
//!
//! A vCard object is a `BEGIN:VCARD` line, property lines of the shape
//! `NAME[;parameters]:value`, and an `END:VCARD` line; lines end with
//! CRLF (a bare LF is accepted on input, and one trailing CR per line is
//! stripped).  Decoding consumes only the first object of the input and
//! requires `VERSION` to be exactly `4.0` and `FN` to be present and
//! non-empty; `EMAIL` and `TEL` values are collected in order of
//! appearance and every other property is ignored.  Encoding writes the
//! name and the deduplicated value lists back into that shape.

use crate::contact::{Contact, ContactV, Mail, Phone};
use vstd::prelude::*;
use vstd::string::*;

verus! {

/// Why a vCard text was rejected by `decode`.
#[derive(Clone, Copy, Debug, PartialEq, Eq, Structural)]
pub enum DecodeError {
    /// The framing or a property line is malformed.
    Malformed,
    /// The `VERSION` property is absent or not `4.0`.
    BadVersion,
    /// The `FN` property is absent or its value is empty.
    MissingName,
}

/// Index of the first occurrence of `c` in `s`, or `s.len()` if absent.
pub open spec fn first_at(s: Seq<char>, c: char) -> int
    decreases s.len(),
{
    if s.len() == 0 {
        0
    } else if s[0] == c {
        0
    } else {
        1 + first_at(s.skip(1), c)
    }
}

pub proof fn lemma_first_at(s: Seq<char>, c: char)
    ensures
        0 <= first_at(s, c) <= s.len(),
        forall|j: int| 0 <= j < first_at(s, c) ==> s[j] != c,
        first_at(s, c) < s.len() ==> s[first_at(s, c)] == c,
    decreases s.len(),
{
    if s.len() == 0 {
    } else if s[0] == c {
    } else {
        lemma_first_at(s.skip(1), c);
        let i = first_at(s, c);
        assert forall|j: int| 0 <= j < i implies s[j] != c by {
            if j > 0 {
                assert(s.skip(1)[j - 1] == s[j]);
            }
        }
        if i < s.len() {
            assert(s.skip(1)[i - 1] == s[i]);
        }
    }
}

/// The characterization of `first_at` is unique.
pub proof fn lemma_first_at_is(s: Seq<char>, c: char, i: int)
    requires
        0 <= i <= s.len(),
        forall|j: int| 0 <= j < i ==> s[j] != c,
        i < s.len() ==> s[i] == c,
    ensures
        first_at(s, c) == i,
    decreases s.len(),
{
    if s.len() == 0 {
    } else if s[0] == c {
        assert(i == 0);
    } else {
        assert(i >= 1);
        assert forall|j: int| 0 <= j < i - 1 implies s.skip(1)[j] != c by {
            assert(s.skip(1)[j] == s[j + 1]);
        }
        if i - 1 < s.skip(1).len() {
            assert(s.skip(1)[i - 1] == s[i]);
        }
        lemma_first_at_is(s.skip(1), c, i - 1);
    }
}

/// A line with one trailing carriage return removed, if it has one.
pub open spec fn strip_cr(l: Seq<char>) -> Seq<char> {
    if l.len() > 0 && l[l.len() - 1] == '\r' {
        l.drop_last()
    } else {
        l
    }
}

/// The input split at every line feed, each piece stripped of one
/// trailing carriage return.  The result always has at least one
/// element; text ending in a line terminator yields a final empty line.
pub open spec fn lines_of(s: Seq<char>) -> Seq<Seq<char>>
    decreases s.len(),
{
    let i = first_at(s, '\n');
    if 0 <= i && i < s.len() {
        seq![strip_cr(s.take(i))] + lines_of(s.skip(i + 1))
    } else {
        seq![strip_cr(s)]
    }
}

/// No line feed occurs in `l`.
pub open spec fn nl_free(l: Seq<char>) -> bool {
    forall|j: int| 0 <= j < l.len() ==> l[j] != '\n'
}

pub proof fn lemma_lines_of_len(s: Seq<char>)
    ensures
        lines_of(s).len() >= 1,
    decreases s.len(),
{
    let i = first_at(s, '\n');
    if 0 <= i && i < s.len() {
        lemma_lines_of_len(s.skip(i + 1));
    }
}

/// Every line produced by `lines_of` is free of line feeds.
pub proof fn lemma_lines_nl_free(s: Seq<char>)
    ensures
        forall|k: int| 0 <= k < lines_of(s).len() ==> nl_free(#[trigger] lines_of(s)[k]),
    decreases s.len(),
{
    lemma_first_at(s, '\n');
    let i = first_at(s, '\n');
    if 0 <= i && i < s.len() {
        lemma_lines_nl_free(s.skip(i + 1));
        assert(nl_free(strip_cr(s.take(i))));
        assert forall|k: int| 0 <= k < lines_of(s).len() implies nl_free(
            #[trigger] lines_of(s)[k],
        ) by {
            if k > 0 {
                assert(lines_of(s)[k] == lines_of(s.skip(i + 1))[k - 1]);
            }
        }
    } else {
        assert(nl_free(strip_cr(s)));
    }
}

/// Index of the first line equal to `t` in `ls`, or `ls.len()` if none.
pub open spec fn first_line_eq(ls: Seq<Seq<char>>, t: Seq<char>) -> int
    decreases ls.len(),
{
    if ls.len() == 0 {
        0
    } else if ls[0] == t {
        0
    } else {
        1 + first_line_eq(ls.skip(1), t)
    }
}

pub proof fn lemma_first_line_eq(ls: Seq<Seq<char>>, t: Seq<char>)
    ensures
        0 <= first_line_eq(ls, t) <= ls.len(),
        forall|j: int| 0 <= j < first_line_eq(ls, t) ==> ls[j] != t,
        first_line_eq(ls, t) < ls.len() ==> ls[first_line_eq(ls, t)] == t,
    decreases ls.len(),
{
    if ls.len() == 0 {
    } else if ls[0] == t {
    } else {
        lemma_first_line_eq(ls.skip(1), t);
        let i = first_line_eq(ls, t);
        assert forall|j: int| 0 <= j < i implies ls[j] != t by {
            if j > 0 {
                assert(ls.skip(1)[j - 1] == ls[j]);
            }
        }
        if i < ls.len() {
            assert(ls.skip(1)[i - 1] == ls[i]);
        }
    }
}

pub proof fn lemma_first_line_eq_is(ls: Seq<Seq<char>>, t: Seq<char>, i: int)
    requires
        0 <= i <= ls.len(),
        forall|j: int| 0 <= j < i ==> ls[j] != t,
        i < ls.len() ==> ls[i] == t,
    ensures
        first_line_eq(ls, t) == i,
    decreases ls.len(),
{
    if ls.len() == 0 {
    } else if ls[0] == t {
        assert(i == 0);
    } else {
        assert(i >= 1);
        assert forall|j: int| 0 <= j < i - 1 implies ls.skip(1)[j] != t by {
            assert(ls.skip(1)[j] == ls[j + 1]);
        }
        if i - 1 < ls.skip(1).len() {
            assert(ls.skip(1)[i - 1] == ls[i]);
        }
        lemma_first_line_eq_is(ls.skip(1), t, i - 1);
    }
}

/// Where the property name of line `l` ends: at the first colon or
/// semicolon, whichever comes first.
pub open spec fn name_end(l: Seq<char>) -> int {
    if first_at(l, ';') < first_at(l, ':') {
        first_at(l, ';')
    } else {
        first_at(l, ':')
    }
}

/// The property name of line `l`.
pub open spec fn prop_name(l: Seq<char>) -> Seq<char> {
    l.take(name_end(l))
}

/// A property line is well-formed when it contains a colon.
pub open spec fn line_ok(l: Seq<char>) -> bool {
    first_at(l, ':') < l.len()
}

/// The property value of line `l`: everything after the first colon.
pub open spec fn prop_value(l: Seq<char>) -> Seq<char> {
    l.skip(first_at(l, ':') + 1)
}

/// The values of every property named `name` among the lines `ls`, in
/// order of appearance.
pub open spec fn vals_of(ls: Seq<Seq<char>>, name: Seq<char>) -> Seq<Seq<char>>
    decreases ls.len(),
{
    if ls.len() == 0 {
        Seq::empty()
    } else if prop_name(ls[0]) == name {
        seq![prop_value(ls[0])] + vals_of(ls.skip(1), name)
    } else {
        vals_of(ls.skip(1), name)
    }
}

/// Every line of `ls` is a well-formed property line.
pub open spec fn all_lines_ok(ls: Seq<Seq<char>>) -> bool {
    forall|k: int| 0 <= k < ls.len() ==> line_ok(#[trigger] ls[k])
}

/// The property lines of the first vCard object of `s`: the lines
/// strictly between the leading `BEGIN:VCARD` line and the first
/// `END:VCARD` line.
pub open spec fn body_of(s: Seq<char>) -> Seq<Seq<char>> {
    let rest = lines_of(s).skip(1);
    rest.take(first_line_eq(rest, "END:VCARD"@))
}

/// What decoding a vCard text yields: the first object's record, or the
/// reason it is rejected.  Lines after the first `END:VCARD` are
/// discarded.
pub open spec fn decode_spec(s: Seq<char>) -> Result<ContactV, DecodeError> {
    let ls = lines_of(s);
    let rest = ls.skip(1);
    if ls[0] != "BEGIN:VCARD"@ {
        Err(DecodeError::Malformed)
    } else if first_line_eq(rest, "END:VCARD"@) >= rest.len() {
        Err(DecodeError::Malformed)
    } else {
        let body = body_of(s);
        if !all_lines_ok(body) {
            Err(DecodeError::Malformed)
        } else if vals_of(body, "VERSION"@).len() == 0 {
            Err(DecodeError::BadVersion)
        } else if vals_of(body, "VERSION"@)[0] != "4.0"@ {
            Err(DecodeError::BadVersion)
        } else if vals_of(body, "FN"@).len() == 0 {
            Err(DecodeError::MissingName)
        } else if vals_of(body, "FN"@)[0].len() == 0 {
            Err(DecodeError::MissingName)
        } else {
            Ok(
                ContactV {
                    name: vals_of(body, "FN"@)[0],
                    mails: vals_of(body, "EMAIL"@),
                    phones: vals_of(body, "TEL"@),
                },
            )
        }
    }
}

/// Character-wise string equality.
pub fn str_eq(a: &str, b: &str) -> (r: bool)
    ensures
        r == (a@ == b@),
{
    let n = a.unicode_len();
    let m = b.unicode_len();
    if n != m {
        return false;
    }
    let mut i: usize = 0;
    while i < n
        invariant
            n == a@.len(),
            n == b@.len(),
            i <= n,
            forall|j: int| 0 <= j < i ==> a@[j] == b@[j],
        decreases n - i,
    {
        if a.get_char(i) != b.get_char(i) {
            return false;
        }
        i = i + 1;
    }
    proof {
        assert(a@ =~= b@);
    }
    true
}

/// Index of the first occurrence of `c` in `s`, or the length of `s`.
pub fn find_char(s: &str, c: char) -> (i: usize)
    ensures
        i as int == first_at(s@, c),
        i <= s@.len(),
{
    let n = s.unicode_len();
    let mut i: usize = 0;
    while i < n
        invariant
            i <= n,
            n == s@.len(),
            forall|j: int| 0 <= j < i ==> s@[j] != c,
        decreases n - i,
    {
        if s.get_char(i) == c {
            proof {
                lemma_first_at_is(s@, c, i as int);
            }
            return i;
        }
        i = i + 1;
    }
    proof {
        lemma_first_at_is(s@, c, i as int);
    }
    i
}

/// Copies `l` with one trailing carriage return removed.
fn strip_cr_str(l: &str) -> (r: String)
    ensures
        r@ == strip_cr(l@),
{
    let n = l.unicode_len();
    if n > 0 && l.get_char(n - 1) == '\r' {
        let r = String::from_str(l.substring_char(0, n - 1));
        proof {
            assert(l@.subrange(0, n as int - 1) =~= l@.drop_last());
        }
        r
    } else {
        String::from_str(l)
    }
}

/// Splits text into lines as `lines_of` describes.
pub fn split_lines(s: &str) -> (r: Vec<String>)
    ensures
        r@.map_values(|l: String| l@) == lines_of(s@),
{
    let mut r: Vec<String> = Vec::new();
    let mut rest: &str = s;
    proof {
        assert(r@.map_values(|l: String| l@) + lines_of(rest@) =~= lines_of(s@));
    }
    loop
        invariant
            r@.map_values(|l: String| l@) + lines_of(rest@) == lines_of(s@),
        decreases rest@.len(),
    {
        let n = rest.unicode_len();
        let i = find_char(rest, '\n');
        proof {
            lemma_first_at(rest@, '\n');
        }
        if i == n {
            let line = strip_cr_str(rest);
            let ghost prev = r@.map_values(|l: String| l@);
            r.push(line);
            proof {
                assert(lines_of(rest@) =~= seq![strip_cr(rest@)]);
                assert(r@.map_values(|l: String| l@) =~= prev + seq![strip_cr(rest@)]);
                assert(r@.map_values(|l: String| l@) =~= lines_of(s@));
            }
            return r;
        } else {
            let line = strip_cr_str(rest.substring_char(0, i));
            let ghost prev = r@.map_values(|l: String| l@);
            let ghost old_rest = rest@;
            r.push(line);
            rest = rest.substring_char(i + 1, n);
            proof {
                assert(old_rest.subrange(0, i as int) =~= old_rest.take(i as int));
                assert(rest@ =~= old_rest.skip(i as int + 1));
                assert(lines_of(old_rest) == seq![strip_cr(old_rest.take(i as int))]
                    + lines_of(old_rest.skip(i as int + 1)));
                assert(r@.map_values(|l: String| l@) =~= prev + seq![
                    strip_cr(old_rest.take(i as int)),
                ]);
                assert(r@.map_values(|l: String| l@) + lines_of(rest@) =~= lines_of(s@));
            }
        }
    }
}

/// `vs` with every repeated value removed, keeping the first occurrence
/// of each value in order.
pub open spec fn dedup(vs: Seq<Seq<char>>) -> Seq<Seq<char>>
    decreases vs.len(),
{
    if vs.len() == 0 {
        Seq::empty()
    } else if vs.drop_last().contains(vs.last()) {
        dedup(vs.drop_last())
    } else {
        dedup(vs.drop_last()).push(vs.last())
    }
}

/// Deduplication keeps exactly the values that were present.
pub proof fn lemma_dedup_membership(vs: Seq<Seq<char>>, x: Seq<char>)
    ensures
        dedup(vs).contains(x) == vs.contains(x),
    decreases vs.len(),
{
    if vs.len() == 0 {
    } else {
        let dl = vs.drop_last();
        lemma_dedup_membership(dl, x);
        assert forall|i: int| 0 <= i < vs.len() && vs[i] == x implies vs.contains(x) by {}
        if vs.contains(x) {
            let i = choose|i: int| 0 <= i < vs.len() && vs[i] == x;
            if i < vs.len() - 1 {
                assert(dl[i] == x);
                assert(dl.contains(x));
            } else {
                assert(x == vs.last());
            }
        }
        if dl.contains(vs.last()) {
            if vs.contains(x) {
                if x == vs.last() {
                    assert(dl.contains(x));
                }
                assert(dedup(vs).contains(x));
            }
            if dedup(vs).contains(x) {
                let j = choose|j: int| 0 <= j < dl.len() && dl[j] == x;
                assert(vs[j] == x);
                assert(vs.contains(x));
            }
        } else {
            if vs.contains(x) {
                if x == vs.last() {
                    assert(dedup(vs)[dedup(vs).len() - 1] == x);
                    assert(dedup(vs).contains(x));
                } else {
                    let j = choose|j: int| 0 <= j < dedup(dl).len() && dedup(dl)[j] == x;
                    assert(dedup(vs)[j] == x);
                    assert(dedup(vs).contains(x));
                }
            }
            if dedup(vs).contains(x) {
                let j = choose|j: int| 0 <= j < dedup(vs).len() && dedup(vs)[j] == x;
                if j < dedup(vs).len() - 1 {
                    assert(dedup(dl)[j] == x);
                    let i = choose|i: int| 0 <= i < dl.len() && dl[i] == x;
                    assert(vs[i] == x);
                } else {
                    assert(x == vs.last());
                    assert(vs[vs.len() - 1] == x);
                }
                assert(vs.contains(x));
            }
        }
    }
}

/// Deduplication preserves the set of values.
pub proof fn lemma_dedup_to_set(vs: Seq<Seq<char>>)
    ensures
        dedup(vs).to_set() == vs.to_set(),
{
    assert forall|x: Seq<char>| #[trigger] dedup(vs).to_set().contains(x) implies vs.to_set()
        .contains(x) by {
        lemma_dedup_membership(vs, x);
    }
    assert forall|x: Seq<char>| #[trigger] vs.to_set().contains(x) implies dedup(vs).to_set()
        .contains(x) by {
        lemma_dedup_membership(vs, x);
    }
    assert(dedup(vs).to_set() =~= vs.to_set());
}

/// The text of one property line, terminator included.
pub open spec fn content_line(name: Seq<char>, v: Seq<char>) -> Seq<char> {
    name + seq![':'] + v
}

/// One full property line: content plus CRLF.
pub open spec fn prop_line(name: Seq<char>, v: Seq<char>) -> Seq<char> {
    content_line(name, v) + seq!['\r', '\n']
}

/// One property line per value, concatenated.
pub open spec fn prop_lines(name: Seq<char>, vs: Seq<Seq<char>>) -> Seq<char>
    decreases vs.len(),
{
    if vs.len() == 0 {
        Seq::empty()
    } else {
        prop_line(name, vs[0]) + prop_lines(name, vs.skip(1))
    }
}

/// The vCard 4.0 text of record `c`: framing and version lines, the
/// name, then one line per distinct mail and phone value.
pub open spec fn encode_spec(c: ContactV) -> Seq<char> {
    "BEGIN:VCARD\r\n"@ + "VERSION:4.0\r\n"@ + prop_line("FN"@, c.name) + prop_lines(
        "EMAIL"@,
        dedup(c.mails),
    ) + prop_lines("TEL"@, dedup(c.phones)) + "END:VCARD\r\n"@
}

/// Whether `v` holds a string whose characters are `x`.
fn contains_str(v: &Vec<String>, x: &str) -> (r: bool)
    ensures
        r == v@.map_values(|s: String| s@).contains(x@),
{
    let ghost m = v@.map_values(|s: String| s@);
    let mut i: usize = 0;
    while i < v.len()
        invariant
            i <= v@.len(),
            m == v@.map_values(|s: String| s@),
            forall|j: int| 0 <= j < i ==> m[j] != x@,
        decreases v@.len() - i,
    {
        if str_eq(v[i].as_str(), x) {
            proof {
                assert(m[i as int] == x@);
            }
            return true;
        }
        proof {
            assert(m[i as int] == v@[i as int]@);
        }
        i = i + 1;
    }
    false
}

/// Drops repeated values, keeping first occurrences in order.
fn dedup_strings(vs: &Vec<String>) -> (r: Vec<String>)
    ensures
        r@.map_values(|x: String| x@) == dedup(vs@.map_values(|x: String| x@)),
{
    let ghost gvs = vs@.map_values(|x: String| x@);
    let mut r: Vec<String> = Vec::new();
    let mut i: usize = 0;
    proof {
        assert(gvs.take(0) =~= Seq::<Seq<char>>::empty());
        assert(r@.map_values(|x: String| x@) =~= dedup(gvs.take(0)));
    }
    while i < vs.len()
        invariant
            i <= vs@.len(),
            gvs == vs@.map_values(|x: String| x@),
            r@.map_values(|x: String| x@) == dedup(gvs.take(i as int)),
        decreases vs@.len() - i,
    {
        let x = vs[i].clone();
        proof {
            assert(gvs[i as int] == vs@[i as int]@);
            assert(gvs.take(i as int + 1).drop_last() =~= gvs.take(i as int));
            assert(gvs.take(i as int + 1).last() == x@);
        }
        let present = contains_str(&r, x.as_str());
        proof {
            lemma_dedup_membership(gvs.take(i as int), x@);
        }
        if !present {
            let ghost prev = r@.map_values(|x: String| x@);
            r.push(x);
            proof {
                assert(r@.map_values(|x: String| x@) =~= prev.push(gvs[i as int]));
            }
        }
        i = i + 1;
    }
    proof {
        assert(gvs.take(gvs.len() as int) =~= gvs);
    }
    r
}

/// Appends one property line per value to `out`.  `tag` must be the
/// property name followed by a colon.
fn append_prop_lines(out: &mut String, tag: &str, Ghost(name): Ghost<Seq<char>>, vs: &Vec<String>)
    requires
        tag@ == name + seq![':'],
    ensures
        final(out)@ == old(out)@ + prop_lines(name, vs@.map_values(|x: String| x@)),
{
    let ghost gvs = vs@.map_values(|x: String| x@);
    let ghost base = out@;
    let mut j: usize = 0;
    proof {
        assert(gvs.skip(0) =~= gvs);
    }
    while j < vs.len()
        invariant
            j <= vs@.len(),
            gvs == vs@.map_values(|x: String| x@),
            tag@ == name + seq![':'],
            out@ + prop_lines(name, gvs.skip(j as int)) == base + prop_lines(name, gvs),
        decreases vs@.len() - j,
    {
        let ghost before = out@;
        out.append(tag);
        out.append(vs[j].as_str());
        out.append("\r\n");
        proof {
            reveal_strlit("\r\n");
            assert(gvs[j as int] == vs@[j as int]@);
            assert("\r\n"@ =~= seq!['\r', '\n']);
            assert(out@ =~= before + prop_line(name, gvs[j as int]));
            assert(gvs.skip(j as int)[0] == gvs[j as int]);
            assert(gvs.skip(j as int).skip(1) =~= gvs.skip(j as int + 1));
            assert(prop_lines(name, gvs.skip(j as int)) == prop_line(name, gvs[j as int])
                + prop_lines(name, gvs.skip(j as int + 1)));
            assert(out@ + prop_lines(name, gvs.skip(j as int + 1)) =~= base + prop_lines(
                name,
                gvs,
            ));
        }
        j = j + 1;
    }
    proof {
        assert(gvs.skip(gvs.len() as int) =~= Seq::<Seq<char>>::empty());
    }
}

/// Copies the mail addresses of `ms` in order.
fn mail_strings(ms: &Vec<Mail>) -> (r: Vec<String>)
    ensures
        r@.map_values(|x: String| x@) == ms@.map_values(|m: Mail| m@),
{
    let mut r: Vec<String> = Vec::new();
    let mut i: usize = 0;
    while i < ms.len()
        invariant
            i <= ms@.len(),
            r@.map_values(|x: String| x@) == ms@.map_values(|m: Mail| m@).take(i as int),
        decreases ms@.len() - i,
    {
        let ghost prev = r@.map_values(|x: String| x@);
        r.push(ms[i].address.clone());
        proof {
            assert(r@.map_values(|x: String| x@) =~= prev.push(ms@[i as int]@));
            assert(ms@.map_values(|m: Mail| m@).take(i as int + 1) =~= prev.push(
                ms@[i as int]@,
            ));
        }
        i = i + 1;
    }
    proof {
        assert(ms@.map_values(|m: Mail| m@).take(ms@.len() as int) =~= ms@.map_values(
            |m: Mail| m@,
        ));
    }
    r
}

/// Copies the phone numbers of `ps` in order.
fn phone_strings(ps: &Vec<Phone>) -> (r: Vec<String>)
    ensures
        r@.map_values(|x: String| x@) == ps@.map_values(|p: Phone| p@),
{
    let mut r: Vec<String> = Vec::new();
    let mut i: usize = 0;
    while i < ps.len()
        invariant
            i <= ps@.len(),
            r@.map_values(|x: String| x@) == ps@.map_values(|p: Phone| p@).take(i as int),
        decreases ps@.len() - i,
    {
        let ghost prev = r@.map_values(|x: String| x@);
        r.push(ps[i].number.clone());
        proof {
            assert(r@.map_values(|x: String| x@) =~= prev.push(ps@[i as int]@));
            assert(ps@.map_values(|p: Phone| p@).take(i as int + 1) =~= prev.push(
                ps@[i as int]@,
            ));
        }
        i = i + 1;
    }
    proof {
        assert(ps@.map_values(|p: Phone| p@).take(ps@.len() as int) =~= ps@.map_values(
            |p: Phone| p@,
        ));
    }
    r
}

/// Encodes record `c` as vCard 4.0 text, exactly as `encode_spec`
/// describes.
pub fn encode(c: &Contact) -> (r: String)
    ensures
        r@ == encode_spec(c@),
{
    let mut out = String::from_str("BEGIN:VCARD\r\nVERSION:4.0\r\nFN:");
    out.append(c.name.as_str());
    out.append("\r\n");
    proof {
        reveal_strlit("BEGIN:VCARD\r\nVERSION:4.0\r\nFN:");
        reveal_strlit("BEGIN:VCARD\r\n");
        reveal_strlit("VERSION:4.0\r\n");
        reveal_strlit("FN");
        reveal_strlit("\r\n");
        assert(out@ =~= "BEGIN:VCARD\r\n"@ + "VERSION:4.0\r\n"@ + prop_line("FN"@, c.name@));
    }
    let mails = dedup_strings(&mail_strings(&c.mails));
    let phones = dedup_strings(&phone_strings(&c.phones));
    proof {
        reveal_strlit("EMAIL:");
        reveal_strlit("EMAIL");
        reveal_strlit("TEL:");
        reveal_strlit("TEL");
        assert("EMAIL:"@ =~= "EMAIL"@ + seq![':']);
        assert("TEL:"@ =~= "TEL"@ + seq![':']);
    }
    append_prop_lines(&mut out, "EMAIL:", Ghost("EMAIL"@), &mails);
    append_prop_lines(&mut out, "TEL:", Ghost("TEL"@), &phones);
    out.append("END:VCARD\r\n");
    proof {
        assert(out@ =~= encode_spec(c@));
    }
    out
}

/// Prepending one full property line prepends one split line.
pub proof fn lemma_lines_of_step(content: Seq<char>, rest: Seq<char>)
    requires
        nl_free(content),
    ensures
        lines_of(content + seq!['\r', '\n'] + rest) == seq![content] + lines_of(rest),
{
    let s = content + seq!['\r', '\n'] + rest;
    let n = content.len() as int;
    assert(s[n] == '\r' && s[n + 1] == '\n');
    assert forall|j: int| 0 <= j < n + 1 implies s[j] != '\n' by {
        if j < n {
            assert(s[j] == content[j]);
        }
    }
    lemma_first_at_is(s, '\n', n + 1);
    assert(s.take(n + 1) =~= content + seq!['\r']);
    assert(strip_cr(content + seq!['\r']) =~= content);
    assert(s.skip(n + 2) =~= rest);
    assert(lines_of(s) =~~= seq![content] + lines_of(rest));
}

/// A property line built from a colon- and semicolon-free name parses
/// back into that name and value.
pub proof fn lemma_content_line_props(name: Seq<char>, v: Seq<char>)
    requires
        forall|j: int| 0 <= j < name.len() ==> name[j] != ':' && name[j] != ';',
    ensures
        prop_name(content_line(name, v)) == name,
        prop_value(content_line(name, v)) == v,
        line_ok(content_line(name, v)),
{
    let l = content_line(name, v);
    let n = name.len() as int;
    assert(l[n] == ':');
    assert forall|j: int| 0 <= j < n implies l[j] != ':' by {
        assert(l[j] == name[j]);
    }
    lemma_first_at_is(l, ':', n);
    lemma_first_at(l, ';');
    let si = first_at(l, ';');
    if si < n {
        assert(l[si] == name[si]);
        assert(false);
    }
    assert(name_end(l) == n);
    assert(prop_name(l) =~= name);
    assert(prop_value(l) =~= v);
}

/// Splitting the lines of one property per value, before `rest`.
pub proof fn lemma_lines_of_prop_lines(name: Seq<char>, vs: Seq<Seq<char>>, rest: Seq<char>)
    requires
        nl_free(name),
        forall|i: int| 0 <= i < vs.len() ==> nl_free(#[trigger] vs[i]),
    ensures
        lines_of(prop_lines(name, vs) + rest) == vs.map_values(
            |v: Seq<char>| content_line(name, v),
        ) + lines_of(rest),
    decreases vs.len(),
{
    let f = |v: Seq<char>| content_line(name, v);
    if vs.len() == 0 {
        assert(prop_lines(name, vs) + rest =~= rest);
        assert(vs.map_values(f) + lines_of(rest) =~= lines_of(rest));
    } else {
        let content = content_line(name, vs[0]);
        assert forall|j: int| 0 <= j < content.len() implies content[j] != '\n' by {
            let n = name.len() as int;
            if j < n {
                assert(content[j] == name[j]);
            } else if j == n {
                assert(content[j] == ':');
            } else {
                assert(content[j] == vs[0][j - n - 1]);
            }
        }
        assert(prop_lines(name, vs) + rest =~= content + seq!['\r', '\n'] + (prop_lines(
            name,
            vs.skip(1),
        ) + rest));
        lemma_lines_of_step(content, prop_lines(name, vs.skip(1)) + rest);
        assert forall|i: int| 0 <= i < vs.skip(1).len() implies nl_free(
            #[trigger] vs.skip(1)[i],
        ) by {
            assert(vs.skip(1)[i] == vs[i + 1]);
        }
        lemma_lines_of_prop_lines(name, vs.skip(1), rest);
        assert(vs.map_values(f) =~= seq![content] + vs.skip(1).map_values(f));
        assert(lines_of(prop_lines(name, vs) + rest) =~~= vs.map_values(f) + lines_of(rest));
    }
}

/// `vals_of` distributes over concatenation of line lists.
pub proof fn lemma_vals_of_append(a: Seq<Seq<char>>, b: Seq<Seq<char>>, q: Seq<char>)
    ensures
        vals_of(a + b, q) == vals_of(a, q) + vals_of(b, q),
    decreases a.len(),
{
    if a.len() == 0 {
        assert(a + b =~= b);
        assert(vals_of(a, q) + vals_of(b, q) =~= vals_of(b, q));
    } else {
        assert((a + b)[0] == a[0]);
        assert((a + b).skip(1) =~= a.skip(1) + b);
        lemma_vals_of_append(a.skip(1), b, q);
        assert(vals_of(a + b, q) =~~= vals_of(a, q) + vals_of(b, q));
    }
}

/// The values found among lines that all carry one name.
pub proof fn lemma_vals_of_content_lines(name: Seq<char>, vs: Seq<Seq<char>>, q: Seq<char>)
    requires
        forall|j: int| 0 <= j < name.len() ==> name[j] != ':' && name[j] != ';',
    ensures
        vals_of(vs.map_values(|v: Seq<char>| content_line(name, v)), q) == (if name == q {
            vs
        } else {
            Seq::<Seq<char>>::empty()
        }),
    decreases vs.len(),
{
    let f = |v: Seq<char>| content_line(name, v);
    let m = vs.map_values(f);
    if vs.len() == 0 {
        assert(m =~= Seq::<Seq<char>>::empty());
    } else {
        lemma_content_line_props(name, vs[0]);
        assert(m[0] == content_line(name, vs[0]));
        assert(m.skip(1) =~= vs.skip(1).map_values(f));
        lemma_vals_of_content_lines(name, vs.skip(1), q);
        if name == q {
            assert(vals_of(m, q) =~= vs);
        } else {
            assert(vals_of(m, q) =~= Seq::<Seq<char>>::empty());
        }
    }
}

/// The values of a two-line list, written out.
pub proof fn lemma_vals_of_two(l0: Seq<char>, l1: Seq<char>, q: Seq<char>)
    ensures
        vals_of(seq![l0, l1], q) == (if prop_name(l0) == q {
            seq![prop_value(l0)]
        } else {
            Seq::<Seq<char>>::empty()
        }) + (if prop_name(l1) == q {
            seq![prop_value(l1)]
        } else {
            Seq::<Seq<char>>::empty()
        }),
{
    let fr = seq![l0, l1];
    let e = Seq::<Seq<char>>::empty();
    assert(fr.skip(1) =~= seq![l1]);
    assert(seq![l1].skip(1) =~= e);
    assert(vals_of(e, q) == e);
    assert(fr[0] == l0 && seq![l1][0] == l1);
    assert(vals_of(seq![l1], q) == (if prop_name(l1) == q {
        seq![prop_value(l1)] + vals_of(e, q)
    } else {
        vals_of(e, q)
    }));
    assert(vals_of(fr, q) == (if prop_name(l0) == q {
        seq![prop_value(l0)] + vals_of(seq![l1], q)
    } else {
        vals_of(seq![l1], q)
    }));
    if prop_name(l0) == q {
        if prop_name(l1) == q {
            assert(vals_of(fr, q) =~~= seq![prop_value(l0)] + seq![prop_value(l1)]);
        } else {
            assert(vals_of(fr, q) =~~= seq![prop_value(l0)] + e);
        }
    } else {
        if prop_name(l1) == q {
            assert(vals_of(fr, q) =~~= e + seq![prop_value(l1)]);
        } else {
            assert(vals_of(fr, q) =~~= e + e);
        }
    }
}

/// Values collected from well-formed, line-feed-free lines are
/// line-feed-free.
pub proof fn lemma_vals_of_nl_free(ls: Seq<Seq<char>>, q: Seq<char>)
    requires
        forall|k: int| 0 <= k < ls.len() ==> nl_free(#[trigger] ls[k]),
        all_lines_ok(ls),
    ensures
        forall|i: int| 0 <= i < vals_of(ls, q).len() ==> nl_free(#[trigger] vals_of(ls, q)[i]),
    decreases ls.len(),
{
    if ls.len() == 0 {
    } else {
        assert forall|k: int| 0 <= k < ls.skip(1).len() implies nl_free(
            #[trigger] ls.skip(1)[k],
        ) && line_ok(ls.skip(1)[k]) by {
            assert(ls.skip(1)[k] == ls[k + 1]);
        }
        lemma_vals_of_nl_free(ls.skip(1), q);
        if prop_name(ls[0]) == q {
            let l = ls[0];
            let ci = first_at(l, ':');
            lemma_first_at(l, ':');
            assert(nl_free(prop_value(l))) by {
                assert forall|j: int| 0 <= j < prop_value(l).len() implies prop_value(l)[j]
                    != '\n' by {
                    assert(prop_value(l)[j] == l[j + ci + 1]);
                }
            }
            assert forall|i: int| 0 <= i < vals_of(ls, q).len() implies nl_free(
                #[trigger] vals_of(ls, q)[i],
            ) by {
                if i > 0 {
                    assert(vals_of(ls, q)[i] == vals_of(ls.skip(1), q)[i - 1]);
                }
            }
        }
    }
}

/// A decoded record has a non-empty name and no line feed in any field.
pub proof fn lemma_decode_ok_wf(s: Seq<char>)
    requires
        decode_spec(s) is Ok,
    ensures
        (decode_spec(s)->Ok_0).name.len() > 0,
        nl_free((decode_spec(s)->Ok_0).name),
        forall|i: int|
            0 <= i < (decode_spec(s)->Ok_0).mails.len() ==> nl_free(
                #[trigger] (decode_spec(s)->Ok_0).mails[i],
            ),
        forall|i: int|
            0 <= i < (decode_spec(s)->Ok_0).phones.len() ==> nl_free(
                #[trigger] (decode_spec(s)->Ok_0).phones[i],
            ),
{
    let ls = lines_of(s);
    let rest = ls.skip(1);
    let body = body_of(s);
    lemma_lines_nl_free(s);
    lemma_first_line_eq(rest, "END:VCARD"@);
    assert forall|k: int| 0 <= k < body.len() implies nl_free(#[trigger] body[k]) by {
        assert(body[k] == rest[k]);
        assert(rest[k] == ls[k + 1]);
    }
    lemma_vals_of_nl_free(body, "FN"@);
    lemma_vals_of_nl_free(body, "EMAIL"@);
    lemma_vals_of_nl_free(body, "TEL"@);
}

/// Encoding a well-formed record and decoding the text back yields the
/// same name and the deduplicated value lists.
#[verifier::rlimit(100)]
pub proof fn lemma_decode_encode(c: ContactV)
    requires
        c.name.len() > 0,
        nl_free(c.name),
        forall|i: int| 0 <= i < c.mails.len() ==> nl_free(#[trigger] c.mails[i]),
        forall|i: int| 0 <= i < c.phones.len() ==> nl_free(#[trigger] c.phones[i]),
    ensures
        decode_spec(encode_spec(c)) == Ok::<ContactV, DecodeError>(
            ContactV { name: c.name, mails: dedup(c.mails), phones: dedup(c.phones) },
        ),
{
    reveal_strlit("BEGIN:VCARD\r\n");
    reveal_strlit("BEGIN:VCARD");
    reveal_strlit("VERSION:4.0\r\n");
    reveal_strlit("VERSION:4.0");
    reveal_strlit("VERSION");
    reveal_strlit("4.0");
    reveal_strlit("FN");
    reveal_strlit("EMAIL");
    reveal_strlit("TEL");
    reveal_strlit("END:VCARD\r\n");
    reveal_strlit("END:VCARD");
    assert("BEGIN:VCARD"@.len() == 11 && "VERSION:4.0"@.len() == 11 && "VERSION"@.len() == 7
        && "4.0"@.len() == 3 && "FN"@.len() == 2 && "EMAIL"@.len() == 5 && "TEL"@.len() == 3
        && "END:VCARD"@.len() == 9);
    let dm = dedup(c.mails);
    let dp = dedup(c.phones);
    assert forall|i: int| 0 <= i < dm.len() implies nl_free(#[trigger] dm[i]) by {
        assert(dm.contains(dm[i]));
        lemma_dedup_membership(c.mails, dm[i]);
        let j = choose|j: int| 0 <= j < c.mails.len() && c.mails[j] == dm[i];
        assert(nl_free(c.mails[j]));
    }
    assert forall|i: int| 0 <= i < dp.len() implies nl_free(#[trigger] dp[i]) by {
        assert(dp.contains(dp[i]));
        lemma_dedup_membership(c.phones, dp[i]);
        let j = choose|j: int| 0 <= j < c.phones.len() && c.phones[j] == dp[i];
        assert(nl_free(c.phones[j]));
    }
    let fe = |v: Seq<char>| content_line("EMAIL"@, v);
    let ft = |v: Seq<char>| content_line("TEL"@, v);
    let emap = dm.map_values(fe);
    let tmap = dp.map_values(ft);
    let vcontent = "VERSION:4.0"@;
    let fcontent = content_line("FN"@, c.name);
    let s = encode_spec(c);
    // Split the text into lines, one framing step at a time.
    let rest5 = "END:VCARD\r\n"@;
    let rest4 = prop_lines("TEL"@, dp) + rest5;
    let rest3 = prop_lines("EMAIL"@, dm) + rest4;
    let rest2 = prop_line("FN"@, c.name) + rest3;
    let rest1 = "VERSION:4.0\r\n"@ + rest2;
    assert(s =~= "BEGIN:VCARD"@ + seq!['\r', '\n'] + rest1);
    assert(nl_free("BEGIN:VCARD"@));
    lemma_lines_of_step("BEGIN:VCARD"@, rest1);
    assert(rest1 =~= vcontent + seq!['\r', '\n'] + rest2);
    assert(nl_free(vcontent));
    lemma_lines_of_step(vcontent, rest2);
    assert(rest2 =~= fcontent + seq!['\r', '\n'] + rest3);
    assert(nl_free(fcontent)) by {
        assert forall|j: int| 0 <= j < fcontent.len() implies fcontent[j] != '\n' by {
            if j < 2 {
                assert(fcontent[j] == "FN"@[j]);
            } else if j == 2 {
                assert(fcontent[j] == ':');
            } else {
                assert(fcontent[j] == c.name[j - 3]);
            }
        }
    }
    lemma_lines_of_step(fcontent, rest3);
    assert(nl_free("EMAIL"@));
    assert(nl_free("TEL"@));
    lemma_lines_of_prop_lines("EMAIL"@, dm, rest4);
    lemma_lines_of_prop_lines("TEL"@, dp, rest5);
    assert(rest5 =~= "END:VCARD"@ + seq!['\r', '\n'] + Seq::<char>::empty());
    assert(nl_free("END:VCARD"@));
    lemma_lines_of_step("END:VCARD"@, Seq::<char>::empty());
    assert(lines_of(Seq::<char>::empty()) == seq![strip_cr(Seq::<char>::empty())]);
    assert(strip_cr(Seq::<char>::empty()) =~= Seq::<char>::empty());
    let tail = seq!["END:VCARD"@, Seq::<char>::empty()];
    assert(lines_of(rest5) =~~= tail);
    let ls = lines_of(s);
    assert(ls =~~= seq!["BEGIN:VCARD"@, vcontent, fcontent] + emap + tmap + tail);
    // Locate the closing line.
    let lsr = ls.skip(1);
    assert(lsr =~~= seq![vcontent, fcontent] + emap + tmap + tail);
    let e = 2 + dm.len() as int + dp.len() as int;
    assert(lsr.len() == e + 2);
    assert forall|j: int| 0 <= j < e implies lsr[j] != "END:VCARD"@ by {
        if j == 0 {
            assert(lsr[j] == vcontent);
            assert(vcontent[7] == ':' && "END:VCARD"@[7] == 'R');
        } else if j == 1 {
            assert(lsr[j] == fcontent);
            assert(fcontent[0] == "FN"@[0]);
            assert(fcontent[0] == 'F' && "END:VCARD"@[0] == 'E');
        } else if j < 2 + dm.len() {
            assert(lsr[j] == emap[j - 2]);
            assert(emap[j - 2] == content_line("EMAIL"@, dm[j - 2]));
            assert(content_line("EMAIL"@, dm[j - 2])[1] == "EMAIL"@[1]);
            assert("EMAIL"@[1] == 'M' && "END:VCARD"@[1] == 'N');
        } else {
            assert(lsr[j] == tmap[j - 2 - dm.len()]);
            assert(tmap[j - 2 - dm.len()] == content_line("TEL"@, dp[j - 2 - dm.len()]));
            assert(content_line("TEL"@, dp[j - 2 - dm.len()])[0] == "TEL"@[0]);
            assert("TEL"@[0] == 'T' && "END:VCARD"@[0] == 'E');
        }
    }
    assert(lsr[e] == "END:VCARD"@);
    lemma_first_line_eq_is(lsr, "END:VCARD"@, e);
    let body = body_of(s);
    assert(body == lsr.take(e));
    assert(body =~~= seq![vcontent, fcontent] + emap + tmap);
    // Every body line is well-formed, with known name and value.
    assert forall|j: int| 0 <= j < "VERSION"@.len() implies "VERSION"@[j] != ':' && "VERSION"@[j]
        != ';' by {}
    assert forall|j: int| 0 <= j < "FN"@.len() implies "FN"@[j] != ':' && "FN"@[j] != ';' by {}
    assert forall|j: int| 0 <= j < "EMAIL"@.len() implies "EMAIL"@[j] != ':' && "EMAIL"@[j]
        != ';' by {}
    assert forall|j: int| 0 <= j < "TEL"@.len() implies "TEL"@[j] != ':' && "TEL"@[j] != ';' by {}
    assert(vcontent =~= content_line("VERSION"@, "4.0"@));
    lemma_content_line_props("VERSION"@, "4.0"@);
    lemma_content_line_props("FN"@, c.name);
    assert(all_lines_ok(body)) by {
        assert forall|k: int| 0 <= k < body.len() implies line_ok(#[trigger] body[k]) by {
            if k == 0 {
            } else if k == 1 {
            } else if k < 2 + dm.len() {
                assert(body[k] == emap[k - 2]);
                lemma_content_line_props("EMAIL"@, dm[k - 2]);
            } else {
                assert(body[k] == tmap[k - 2 - dm.len()]);
                lemma_content_line_props("TEL"@, dp[k - 2 - dm.len()]);
            }
        }
    }
    // Collect the property values per name.
    let front = seq![vcontent, fcontent];
    assert(body =~~= front + (emap + tmap));
    assert("VERSION"@ != "FN"@ && "VERSION"@ != "EMAIL"@ && "VERSION"@ != "TEL"@ && "FN"@
        != "EMAIL"@ && "FN"@ != "TEL"@ && "EMAIL"@ != "TEL"@);
    assert(prop_name(vcontent) == "VERSION"@ && prop_value(vcontent) == "4.0"@);
    assert(prop_name(fcontent) == "FN"@ && prop_value(fcontent) == c.name);
    lemma_vals_of_two(vcontent, fcontent, "VERSION"@);
    lemma_vals_of_two(vcontent, fcontent, "FN"@);
    lemma_vals_of_two(vcontent, fcontent, "EMAIL"@);
    lemma_vals_of_two(vcontent, fcontent, "TEL"@);
    assert(vals_of(front, "VERSION"@) =~~= seq!["4.0"@]);
    assert(vals_of(front, "FN"@) =~~= seq![c.name]);
    assert(vals_of(front, "EMAIL"@) =~~= Seq::<Seq<char>>::empty());
    assert(vals_of(front, "TEL"@) =~~= Seq::<Seq<char>>::empty());
    lemma_vals_of_append(front, emap + tmap, "VERSION"@);
    lemma_vals_of_append(emap, tmap, "VERSION"@);
    lemma_vals_of_append(front, emap + tmap, "FN"@);
    lemma_vals_of_append(emap, tmap, "FN"@);
    lemma_vals_of_append(front, emap + tmap, "EMAIL"@);
    lemma_vals_of_append(emap, tmap, "EMAIL"@);
    lemma_vals_of_append(front, emap + tmap, "TEL"@);
    lemma_vals_of_append(emap, tmap, "TEL"@);
    lemma_vals_of_content_lines("EMAIL"@, dm, "VERSION"@);
    lemma_vals_of_content_lines("EMAIL"@, dm, "FN"@);
    lemma_vals_of_content_lines("EMAIL"@, dm, "EMAIL"@);
    lemma_vals_of_content_lines("EMAIL"@, dm, "TEL"@);
    lemma_vals_of_content_lines("TEL"@, dp, "VERSION"@);
    lemma_vals_of_content_lines("TEL"@, dp, "FN"@);
    lemma_vals_of_content_lines("TEL"@, dp, "EMAIL"@);
    lemma_vals_of_content_lines("TEL"@, dp, "TEL"@);
    assert(vals_of(body, "VERSION"@) =~~= seq!["4.0"@]);
    assert(vals_of(body, "FN"@) =~~= seq![c.name]);
    assert(vals_of(body, "EMAIL"@) =~~= dm);
    assert(vals_of(body, "TEL"@) =~~= dp);
    // Assemble the decode result.
    assert(ls[0] == "BEGIN:VCARD"@);
    assert(first_line_eq(lsr, "END:VCARD"@) == e < lsr.len());
    assert(vals_of(body, "VERSION"@)[0] == "4.0"@);
    assert(vals_of(body, "FN"@)[0] == c.name);
    assert(decode_spec(s) == Ok::<ContactV, DecodeError>(
        ContactV { name: c.name, mails: dm, phones: dp },
    ));
}

/// Round trip: for text that decodes to a record, encoding that record
/// yields text that decodes again, with the same name and the same sets
/// of mail and phone values.
pub proof fn lemma_round_trip(s: Seq<char>, c: ContactV)
    requires
        decode_spec(s) == Ok::<ContactV, DecodeError>(c),
    ensures
        decode_spec(encode_spec(c)) == Ok::<ContactV, DecodeError>(
            ContactV { name: c.name, mails: dedup(c.mails), phones: dedup(c.phones) },
        ),
        (decode_spec(encode_spec(c))->Ok_0).name == c.name,
        (decode_spec(encode_spec(c))->Ok_0).mails.to_set() == c.mails.to_set(),
        (decode_spec(encode_spec(c))->Ok_0).phones.to_set() == c.phones.to_set(),
{
    lemma_decode_ok_wf(s);
    lemma_decode_encode(c);
    lemma_dedup_to_set(c.mails);
    lemma_dedup_to_set(c.phones);
}

/// The record carried by a decode result, with the error kept as is.
pub open spec fn decode_result_view(r: Result<Contact, DecodeError>) -> Result<
    ContactV,
    DecodeError,
> {
    match r {
        Ok(c) => Ok(c@),
        Err(e) => Err(e),
    }
}

/// Decodes the first vCard object of `s` into a contact record, exactly
/// as `decode_spec` describes.
pub fn decode(s: &str) -> (r: Result<Contact, DecodeError>)
    ensures
        decode_result_view(r) == decode_spec(s@),
{
    proof {
        reveal_strlit("VERSION");
        reveal_strlit("FN");
        reveal_strlit("EMAIL");
        reveal_strlit("TEL");
        lemma_lines_of_len(s@);
    }
    let lines = split_lines(s);
    let ghost ls = lines_of(s@);
    let n = lines.len();
    proof {
        assert(n == ls.len());
        assert(lines@.map_values(|l: String| l@)[0] == ls[0]);
    }
    if !str_eq(lines[0].as_str(), "BEGIN:VCARD") {
        return Err(DecodeError::Malformed);
    }
    let ghost rest = ls.skip(1);
    let mut e: usize = 1;
    loop
        invariant
            1 <= e <= n,
            n == lines@.len(),
            lines@.map_values(|l: String| l@) == ls,
            ls == lines_of(s@),
            rest == ls.skip(1),
            ls[0] == "BEGIN:VCARD"@,
            forall|j: int| 0 <= j < e - 1 ==> rest[j] != "END:VCARD"@,
        ensures
            1 <= e < n,
            first_line_eq(rest, "END:VCARD"@) == e - 1,
        decreases n - e,
    {
        if e == n {
            proof {
                lemma_first_line_eq_is(rest, "END:VCARD"@, rest.len() as int);
            }
            return Err(DecodeError::Malformed);
        }
        proof {
            assert(lines@.map_values(|l: String| l@)[e as int] == ls[e as int]);
            assert(rest[e - 1] == ls[e as int]);
        }
        if str_eq(lines[e].as_str(), "END:VCARD") {
            proof {
                lemma_first_line_eq_is(rest, "END:VCARD"@, e - 1);
            }
            break;
        }
        e = e + 1;
    }
    let ghost body = rest.take(e as int - 1);
    proof {
        assert(first_line_eq(rest, "END:VCARD"@) == e - 1 < rest.len());
        assert(body_of(s@) == body);
    }
    let mut versions: Vec<String> = Vec::new();
    let mut names: Vec<String> = Vec::new();
    let mut mails: Vec<Mail> = Vec::new();
    let mut phones: Vec<Phone> = Vec::new();
    let mut k: usize = 1;
    proof {
        assert(body.skip(0) =~= body);
        assert(versions@.map_values(|x: String| x@) + vals_of(body.skip(0), "VERSION"@) =~= vals_of(
            body,
            "VERSION"@,
        ));
        assert(names@.map_values(|x: String| x@) + vals_of(body.skip(0), "FN"@) =~= vals_of(
            body,
            "FN"@,
        ));
        assert(mails@.map_values(|m: Mail| m@) + vals_of(body.skip(0), "EMAIL"@) =~= vals_of(
            body,
            "EMAIL"@,
        ));
        assert(phones@.map_values(|p: Phone| p@) + vals_of(body.skip(0), "TEL"@) =~= vals_of(
            body,
            "TEL"@,
        ));
    }
    while k < e
        invariant
            1 <= k <= e < n,
            n == lines@.len(),
            lines@.map_values(|l: String| l@) == ls,
            ls == lines_of(s@),
            rest == ls.skip(1),
            ls[0] == "BEGIN:VCARD"@,
            first_line_eq(rest, "END:VCARD"@) == e - 1,
            body == rest.take(e as int - 1),
            body.len() == e - 1,
            forall|j: int| 0 <= j < k - 1 ==> line_ok(#[trigger] body[j]),
            vals_of(body, "VERSION"@) == versions@.map_values(|x: String| x@) + vals_of(
                body.skip(k - 1),
                "VERSION"@,
            ),
            vals_of(body, "FN"@) == names@.map_values(|x: String| x@) + vals_of(
                body.skip(k - 1),
                "FN"@,
            ),
            vals_of(body, "EMAIL"@) == mails@.map_values(|m: Mail| m@) + vals_of(
                body.skip(k - 1),
                "EMAIL"@,
            ),
            vals_of(body, "TEL"@) == phones@.map_values(|p: Phone| p@) + vals_of(
                body.skip(k - 1),
                "TEL"@,
            ),
        decreases e - k,
    {
        proof {
            assert(lines@.map_values(|l: String| l@)[k as int] == ls[k as int]);
            assert(body[k - 1] == ls[k as int]);
        }
        let line = lines[k].as_str();
        let ghost lv = line@;
        let llen = line.unicode_len();
        let ci = find_char(line, ':');
        if ci == llen {
            proof {
                assert(!line_ok(body[k - 1]));
                assert(!all_lines_ok(body));
            }
            return Err(DecodeError::Malformed);
        }
        let si = find_char(line, ';');
        let ne = if si < ci {
            si
        } else {
            ci
        };
        let nm = line.substring_char(0, ne);
        let ghost gskip = body.skip(k - 1);
        proof {
            reveal_strlit("VERSION");
            reveal_strlit("FN");
            reveal_strlit("EMAIL");
            reveal_strlit("TEL");
            assert(ne as int == name_end(lv));
            assert(nm@ =~= prop_name(lv));
            assert(gskip.len() == body.len() - (k - 1));
            assert(gskip[0] == body[k - 1]);
            assert(gskip.skip(1) =~= body.skip(k as int));
        }
        if str_eq(nm, "VERSION") {
            let v = String::from_str(line.substring_char(ci + 1, llen));
            let ghost prev = versions@.map_values(|x: String| x@);
            versions.push(v);
            proof {
                reveal_strlit("VERSION");
                reveal_strlit("FN");
                reveal_strlit("EMAIL");
                reveal_strlit("TEL");
                assert("VERSION"@.len() == 7);
                assert("FN"@.len() == 2);
                assert("EMAIL"@.len() == 5);
                assert("TEL"@.len() == 3);
                assert(prop_name(lv) == "VERSION"@);
                assert(prop_name(lv) != "FN"@ && prop_name(lv) != "EMAIL"@ && prop_name(lv)
                    != "TEL"@);
                assert(vals_of(gskip, "FN"@) == vals_of(body.skip(k as int), "FN"@));
                assert(vals_of(gskip, "EMAIL"@) == vals_of(body.skip(k as int), "EMAIL"@));
                assert(vals_of(gskip, "TEL"@) == vals_of(body.skip(k as int), "TEL"@));
                assert(v@ =~= prop_value(lv));
                assert(versions@.map_values(|x: String| x@) =~= prev + seq![prop_value(lv)]);
                assert(vals_of(gskip, "VERSION"@) == seq![prop_value(lv)] + vals_of(
                    body.skip(k as int),
                    "VERSION"@,
                ));
                assert(vals_of(body, "VERSION"@) =~~= versions@.map_values(|x: String| x@)
                    + vals_of(body.skip(k as int), "VERSION"@));
            }
        } else if str_eq(nm, "FN") {
            let v = String::from_str(line.substring_char(ci + 1, llen));
            let ghost prev = names@.map_values(|x: String| x@);
            names.push(v);
            proof {
                reveal_strlit("VERSION");
                reveal_strlit("FN");
                reveal_strlit("EMAIL");
                reveal_strlit("TEL");
                assert("VERSION"@.len() == 7);
                assert("FN"@.len() == 2);
                assert("EMAIL"@.len() == 5);
                assert("TEL"@.len() == 3);
                assert(prop_name(lv) == "FN"@);
                assert(prop_name(lv) != "VERSION"@ && prop_name(lv) != "EMAIL"@ && prop_name(lv)
                    != "TEL"@);
                assert(vals_of(gskip, "VERSION"@) == vals_of(body.skip(k as int), "VERSION"@));
                assert(vals_of(gskip, "EMAIL"@) == vals_of(body.skip(k as int), "EMAIL"@));
                assert(vals_of(gskip, "TEL"@) == vals_of(body.skip(k as int), "TEL"@));
                assert(v@ =~= prop_value(lv));
                assert(names@.map_values(|x: String| x@) =~= prev + seq![prop_value(lv)]);
                assert(vals_of(gskip, "FN"@) == seq![prop_value(lv)] + vals_of(
                    body.skip(k as int),
                    "FN"@,
                ));
                assert(vals_of(body, "FN"@) =~~= names@.map_values(|x: String| x@) + vals_of(
                    body.skip(k as int),
                    "FN"@,
                ));
            }
        } else if str_eq(nm, "EMAIL") {
            let v = String::from_str(line.substring_char(ci + 1, llen));
            let ghost prev = mails@.map_values(|m: Mail| m@);
            mails.push(Mail { address: v });
            proof {
                reveal_strlit("VERSION");
                reveal_strlit("FN");
                reveal_strlit("EMAIL");
                reveal_strlit("TEL");
                assert("VERSION"@.len() == 7);
                assert("FN"@.len() == 2);
                assert("EMAIL"@.len() == 5);
                assert("TEL"@.len() == 3);
                assert(prop_name(lv) == "EMAIL"@);
                assert(prop_name(lv) != "VERSION"@ && prop_name(lv) != "FN"@ && prop_name(lv)
                    != "TEL"@);
                assert(vals_of(gskip, "VERSION"@) == vals_of(body.skip(k as int), "VERSION"@));
                assert(vals_of(gskip, "FN"@) == vals_of(body.skip(k as int), "FN"@));
                assert(vals_of(gskip, "TEL"@) == vals_of(body.skip(k as int), "TEL"@));
                assert(v@ =~= prop_value(lv));
                assert(mails@.map_values(|m: Mail| m@) =~= prev + seq![prop_value(lv)]);
                assert(vals_of(gskip, "EMAIL"@) == seq![prop_value(lv)] + vals_of(
                    body.skip(k as int),
                    "EMAIL"@,
                ));
                assert(vals_of(body, "EMAIL"@) =~~= mails@.map_values(|m: Mail| m@) + vals_of(
                    body.skip(k as int),
                    "EMAIL"@,
                ));
            }
        } else if str_eq(nm, "TEL") {
            let v = String::from_str(line.substring_char(ci + 1, llen));
            let ghost prev = phones@.map_values(|p: Phone| p@);
            phones.push(Phone { number: v });
            proof {
                reveal_strlit("VERSION");
                reveal_strlit("FN");
                reveal_strlit("EMAIL");
                reveal_strlit("TEL");
                assert("VERSION"@.len() == 7);
                assert("FN"@.len() == 2);
                assert("EMAIL"@.len() == 5);
                assert("TEL"@.len() == 3);
                assert(prop_name(lv) == "TEL"@);
                assert(prop_name(lv) != "VERSION"@ && prop_name(lv) != "FN"@ && prop_name(lv)
                    != "EMAIL"@);
                assert(vals_of(gskip, "VERSION"@) == vals_of(body.skip(k as int), "VERSION"@));
                assert(vals_of(gskip, "FN"@) == vals_of(body.skip(k as int), "FN"@));
                assert(vals_of(gskip, "EMAIL"@) == vals_of(body.skip(k as int), "EMAIL"@));
                assert(v@ =~= prop_value(lv));
                assert(phones@.map_values(|p: Phone| p@) =~= prev + seq![prop_value(lv)]);
                assert(vals_of(gskip, "TEL"@) == seq![prop_value(lv)] + vals_of(
                    body.skip(k as int),
                    "TEL"@,
                ));
                assert(vals_of(body, "TEL"@) =~~= phones@.map_values(|p: Phone| p@) + vals_of(
                    body.skip(k as int),
                    "TEL"@,
                ));
            }
        } else {
            proof {
                assert(vals_of(gskip, "VERSION"@) == vals_of(body.skip(k as int), "VERSION"@));
                assert(vals_of(gskip, "FN"@) == vals_of(body.skip(k as int), "FN"@));
                assert(vals_of(gskip, "EMAIL"@) == vals_of(body.skip(k as int), "EMAIL"@));
                assert(vals_of(gskip, "TEL"@) == vals_of(body.skip(k as int), "TEL"@));
            }
        }
        k = k + 1;
    }
    proof {
        assert(body.skip(e as int - 1) =~= Seq::<Seq<char>>::empty());
        assert(vals_of(body, "VERSION"@) =~~= versions@.map_values(|x: String| x@));
        assert(vals_of(body, "FN"@) =~~= names@.map_values(|x: String| x@));
        assert(vals_of(body, "EMAIL"@) =~~= mails@.map_values(|m: Mail| m@));
        assert(vals_of(body, "TEL"@) =~~= phones@.map_values(|p: Phone| p@));
        assert(all_lines_ok(body));
    }
    if versions.len() == 0 {
        return Err(DecodeError::BadVersion);
    }
    proof {
        assert(versions@.map_values(|x: String| x@)[0] == versions@[0]@);
    }
    if !str_eq(versions[0].as_str(), "4.0") {
        return Err(DecodeError::BadVersion);
    }
    if names.len() == 0 {
        return Err(DecodeError::MissingName);
    }
    let name = names[0].clone();
    proof {
        assert(names@.map_values(|x: String| x@)[0] == names@[0]@);
        assert(name@ == vals_of(body, "FN"@)[0]);
    }
    if name.as_str().unicode_len() == 0 {
        return Err(DecodeError::MissingName);
    }
    let c = Contact { name, mails, phones };
    proof {
        assert(c@ =~~= decode_spec(s@)->Ok_0);
    }
    Ok(c)
}

} // verus!
