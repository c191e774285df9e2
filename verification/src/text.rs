//! Byte-level text building blocks for the exposition format: ASCII
//! literals, decimal rendering, comma-separated joining, and the
//! predicates that rule out double commas in everything the library
//! serializes.
use vstd::prelude::*;

verus! {

broadcast use vstd::string::is_ascii_spec_bytes;

pub const COMMA: u8 = 44;

pub const QUOTE: u8 = 34;

pub const EQUALS: u8 = 61;

pub const LBRACE: u8 = 123;

pub const RBRACE: u8 = 125;

pub const SPACE: u8 = 32;

pub const NEWLINE: u8 = 10;

pub const BACKSLASH: u8 = 92;

pub const DIGIT_ZERO: u8 = 48;

/// The bytes of an ASCII character sequence.
pub open spec fn ascii_bytes(s: Seq<char>) -> Seq<u8> {
    Seq::new(s.len(), |i: int| s[i] as u8)
}

/// No byte of `s` is a comma.
pub open spec fn comma_free(s: Seq<u8>) -> bool {
    forall|i: int| 0 <= i < s.len() ==> s[i] != COMMA
}

/// No two commas stand next to each other in `s`.
pub open spec fn no_double_comma(s: Seq<u8>) -> bool {
    forall|i: int| 0 <= i && i + 1 < s.len() ==> !(#[trigger] s[i] == COMMA && s[i + 1] == COMMA)
}

/// `s` is non-empty, neither starts nor ends with a comma, and holds no
/// double comma: such pieces can be concatenated, or joined with single
/// commas, without ever producing a double comma.
pub open spec fn comma_clean(s: Seq<u8>) -> bool {
    &&& s.len() > 0
    &&& s[0] != COMMA
    &&& s[s.len() - 1] != COMMA
    &&& no_double_comma(s)
}

pub proof fn lemma_comma_free_clean(s: Seq<u8>)
    requires
        comma_free(s),
        s.len() > 0,
    ensures
        comma_clean(s),
{
}

pub proof fn lemma_concat_no_double_comma(a: Seq<u8>, b: Seq<u8>)
    requires
        no_double_comma(a),
        no_double_comma(b),
        a.len() > 0 && b.len() > 0 ==> !(a[a.len() - 1] == COMMA && b[0] == COMMA),
    ensures
        no_double_comma(a + b),
{
    assert forall|i: int| 0 <= i && i + 1 < (a + b).len() implies !(#[trigger] (a + b)[i] == COMMA
        && (a + b)[i + 1] == COMMA) by {
        if i + 1 < a.len() {
            assert((a + b)[i] == a[i]);
            assert((a + b)[i + 1] == a[i + 1]);
        } else if i < a.len() {
            assert(i == a.len() - 1);
            assert((a + b)[i] == a[i]);
            assert((a + b)[i + 1] == b[0]);
        } else {
            assert((a + b)[i] == b[i - a.len()]);
            assert((a + b)[i + 1] == b[i + 1 - a.len()]);
        }
    }
}

pub proof fn lemma_concat_comma_clean(a: Seq<u8>, b: Seq<u8>)
    requires
        comma_clean(a),
        comma_clean(b),
    ensures
        comma_clean(a + b),
{
    lemma_concat_no_double_comma(a, b);
    assert((a + b)[0] == a[0]);
    assert((a + b)[(a + b).len() - 1] == b[b.len() - 1]);
}

/// The pieces joined with single commas between them.
pub open spec fn join_commas(parts: Seq<Seq<u8>>) -> Seq<u8>
    decreases parts.len(),
{
    if parts.len() == 0 {
        Seq::empty()
    } else if parts.len() == 1 {
        parts[0]
    } else {
        join_commas(parts.drop_last()) + seq![COMMA] + parts.last()
    }
}

pub proof fn lemma_join_commas_clean(parts: Seq<Seq<u8>>)
    requires
        parts.len() > 0,
        forall|i: int| 0 <= i < parts.len() ==> comma_clean(#[trigger] parts[i]),
    ensures
        comma_clean(join_commas(parts)),
    decreases parts.len(),
{
    if parts.len() == 1 {
        assert(join_commas(parts) == parts[0]);
    } else {
        let front = parts.drop_last();
        let last = parts.last();
        lemma_join_commas_clean(front);
        let j = join_commas(front);
        let piece = seq![COMMA] + last;
        assert(piece[0] == COMMA);
        assert(piece[piece.len() - 1] == last[last.len() - 1]);
        assert(no_double_comma(piece)) by {
            assert forall|i: int| 0 <= i && i + 1 < piece.len() implies !(#[trigger] piece[i]
                == COMMA && piece[i + 1] == COMMA) by {
                if i == 0 {
                    assert(piece[1] == last[0]);
                } else {
                    assert(piece[i] == last[i - 1]);
                    assert(piece[i + 1] == last[i]);
                }
            }
        }
        lemma_concat_no_double_comma(j, piece);
        assert(join_commas(parts) == j + piece);
        assert((j + piece)[0] == j[0]);
        assert((j + piece)[(j + piece).len() - 1] == piece[piece.len() - 1]);
    }
}

pub proof fn lemma_join_commas_push(parts: Seq<Seq<u8>>, p: Seq<u8>)
    ensures
        join_commas(parts.push(p)) == if parts.len() == 0 {
            p
        } else {
            join_commas(parts) + seq![COMMA] + p
        },
{
    let grown = parts.push(p);
    assert(grown.drop_last() =~= parts);
    assert(grown.last() == p);
    if parts.len() == 0 {
        assert(join_commas(grown) == grown[0]);
    }
}

/// One `key="value"` piece of a label tuple.
pub open spec fn label_part(key: Seq<u8>, value: Seq<u8>) -> Seq<u8> {
    key + seq![EQUALS, QUOTE] + value + seq![QUOTE]
}

/// A byte allowed in a metric or label name.
pub open spec fn name_byte(b: u8) -> bool {
    (65 <= b <= 90) || (97 <= b <= 122) || (48 <= b <= 57) || b == 95
}

/// A well-formed metric or label name: non-empty, made of letters,
/// digits and underscores, not starting with a digit.
pub open spec fn name_text(s: Seq<u8>) -> bool {
    &&& s.len() > 0
    &&& forall|i: int| 0 <= i < s.len() ==> name_byte(#[trigger] s[i])
    &&& !(48 <= s[0] <= 57)
}

/// A byte allowed in a label value: printable ASCII, no quote, no
/// backslash (so the value needs no escaping in the exposition format).
pub open spec fn value_byte(b: u8) -> bool {
    32 <= b <= 126 && b != QUOTE && b != BACKSLASH
}

/// A well-formed label value. Commas may occur, but never two in a row:
/// that keeps every serialized form free of double commas.
pub open spec fn value_text(s: Seq<u8>) -> bool {
    &&& forall|i: int| 0 <= i < s.len() ==> value_byte(#[trigger] s[i])
    &&& no_double_comma(s)
}

pub proof fn lemma_name_comma_free(s: Seq<u8>)
    requires
        name_text(s),
    ensures
        comma_free(s),
        comma_clean(s),
{
    assert forall|i: int| 0 <= i < s.len() implies s[i] != COMMA by {
        assert(name_byte(s[i]));
    }
}

pub proof fn lemma_label_part_clean(key: Seq<u8>, value: Seq<u8>)
    requires
        name_text(key),
        value_text(value),
    ensures
        comma_clean(label_part(key, value)),
{
    lemma_name_comma_free(key);
    let open = key + seq![EQUALS, QUOTE];
    assert(comma_clean(open)) by {
        lemma_concat_comma_clean(key, seq![EQUALS, QUOTE]);
    }
    let with_value = open + value;
    assert(no_double_comma(with_value)) by {
        lemma_concat_no_double_comma(open, value);
    }
    let closed = with_value + seq![QUOTE];
    assert(no_double_comma(closed)) by {
        lemma_concat_no_double_comma(with_value, seq![QUOTE]);
    }
    assert(label_part(key, value) =~= closed);
    assert(closed[0] == key[0]);
    assert(closed[closed.len() - 1] == QUOTE);
}

/// The decimal digits of `n`, most significant first.
pub open spec fn dec_str(n: nat) -> Seq<u8>
    decreases n,
{
    if n < 10 {
        seq![(DIGIT_ZERO + n) as u8]
    } else {
        dec_str(n / 10).push((DIGIT_ZERO + n % 10) as u8)
    }
}

pub proof fn lemma_dec_str_digits(n: nat)
    ensures
        dec_str(n).len() > 0,
        forall|i: int| 0 <= i < dec_str(n).len() ==> 48 <= #[trigger] dec_str(n)[i] <= 57,
        comma_clean(dec_str(n)),
    decreases n,
{
    if n >= 10 {
        lemma_dec_str_digits(n / 10);
    }
    assert forall|i: int| 0 <= i < dec_str(n).len() implies dec_str(n)[i] != COMMA by {
        assert(48 <= dec_str(n)[i] <= 57);
    }
}

/// Append the bytes of `s` to `out`.
pub fn append_bytes(out: &mut Vec<u8>, s: &Vec<u8>)
    ensures
        final(out)@ == old(out)@ + s@,
{
    let mut j: usize = 0;
    while j < s.len()
        invariant
            j <= s.len(),
            out@ == old(out)@ + s@.subrange(0, j as int),
        decreases s.len() - j,
    {
        out.push(s[j]);
        proof {
            assert(old(out)@ + s@.subrange(0, j + 1) =~= (old(out)@ + s@.subrange(0, j as int)).push(
                s@[j as int]));
        }
        j += 1;
    }
    proof {
        assert(s@.subrange(0, s@.len() as int) =~= s@);
    }
}

/// Turn an ASCII string literal into its byte vector.
pub fn lit(s: &str) -> (r: Vec<u8>)
    requires
        s.is_ascii(),
    ensures
        r@ == ascii_bytes(s@),
{
    let b = s.as_bytes();
    proof {
        assert(b@ =~= ascii_bytes(s@));
    }
    vstd::slice::slice_to_vec(b)
}

/// The decimal rendering of `n`.
pub fn fmt_u64(n: u64) -> (r: Vec<u8>)
    ensures
        r@ == dec_str(n as nat),
{
    let mut rev_digits: Vec<u8> = Vec::new();
    let mut m: u64 = n;
    while m >= 10
        invariant
            dec_str(n as nat) == dec_str(m as nat) + rev_digits@.reverse(),
        decreases m,
    {
        let ghost prev = rev_digits@;
        let d: u8 = (m % 10) as u8 + DIGIT_ZERO;
        rev_digits.push(d);
        proof {
            assert(rev_digits@.reverse() =~= seq![d] + prev.reverse());
            assert(dec_str(m as nat) =~= dec_str((m as nat) / 10) + seq![d]);
            assert(dec_str((m / 10) as nat) + rev_digits@.reverse() =~= dec_str(m as nat)
                + prev.reverse());
        }
        m = m / 10;
    }
    let ghost prev = rev_digits@;
    let d: u8 = m as u8 + DIGIT_ZERO;
    rev_digits.push(d);
    proof {
        assert(rev_digits@.reverse() =~= seq![d] + prev.reverse());
        assert(dec_str(m as nat) =~= seq![d]);
        assert(dec_str(n as nat) =~= rev_digits@.reverse());
    }
    let total = rev_digits.len();
    let mut r: Vec<u8> = Vec::new();
    let mut i: usize = total;
    while i > 0
        invariant
            i <= total,
            total == rev_digits@.len(),
            r@ == rev_digits@.reverse().subrange(0, (total - i) as int),
        decreases i,
    {
        i -= 1;
        r.push(rev_digits[i]);
        proof {
            assert(rev_digits@.reverse().subrange(0, (total - i) as int) =~= rev_digits@.reverse()
                .subrange(0, (total - i - 1) as int).push(rev_digits@[i as int]));
        }
    }
    proof {
        assert(rev_digits@.reverse().subrange(0, total as int) =~= rev_digits@.reverse());
    }
    r
}

/// `s` padded on the left with `fill` up to `width` bytes.
pub open spec fn pad_left(s: Seq<u8>, fill: u8, width: nat) -> Seq<u8> {
    if s.len() >= width {
        s
    } else {
        Seq::new((width - s.len()) as nat, |i: int| fill) + s
    }
}

pub fn pad_left_exec(s: &Vec<u8>, fill: u8, width: usize) -> (r: Vec<u8>)
    ensures
        r@ == pad_left(s@, fill, width as nat),
{
    let mut r: Vec<u8> = Vec::new();
    if s.len() < width {
        let pad = width - s.len();
        let mut j: usize = 0;
        while j < pad
            invariant
                j <= pad,
                pad == width - s@.len(),
                s@.len() < width,
                r@ == Seq::new(j as nat, |i: int| fill),
            decreases pad - j,
        {
            r.push(fill);
            proof {
                assert(Seq::new((j + 1) as nat, |i: int| fill) =~= Seq::new(j as nat, |i: int| fill)
                    .push(fill));
            }
            j += 1;
        }
        append_bytes(&mut r, s);
    } else {
        append_bytes(&mut r, s);
        proof {
            assert(Seq::<u8>::empty() + s@ =~= s@);
        }
    }
    r
}

/// A space or horizontal tab, ignored around header tokens and
/// directive items.
pub open spec fn pad_byte(b: u8) -> bool {
    b == 32 || b == 9
}

pub open spec fn lower_byte(b: u8) -> u8 {
    if 65 <= b <= 90 {
        (b + 32) as u8
    } else {
        b
    }
}

pub open spec fn trim_front(s: Seq<u8>) -> Seq<u8>
    decreases s.len(),
{
    if s.len() > 0 && pad_byte(s[0]) {
        trim_front(s.drop_first())
    } else {
        s
    }
}

pub open spec fn trim_back(s: Seq<u8>) -> Seq<u8>
    decreases s.len(),
{
    if s.len() > 0 && pad_byte(s[s.len() - 1]) {
        trim_back(s.drop_last())
    } else {
        s
    }
}

pub fn to_lower(b: u8) -> (r: u8)
    ensures
        r == lower_byte(b),
{
    if 65 <= b && b <= 90 {
        b + 32
    } else {
        b
    }
}

/// Compare two byte vectors.
pub fn bytes_eq(a: &Vec<u8>, b: &Vec<u8>) -> (r: bool)
    ensures
        r <==> a@ == b@,
{
    if a.len() != b.len() {
        proof {
            assert(a@.len() != b@.len());
        }
        return false;
    }
    let mut j: usize = 0;
    while j < a.len()
        invariant
            j <= a.len(),
            a@.len() == b@.len(),
            forall|i: int| 0 <= i < j ==> a@[i] == b@[i],
        decreases a.len() - j,
    {
        if a[j] != b[j] {
            return false;
        }
        j += 1;
    }
    proof {
        assert(a@ =~= b@);
    }
    true
}

/// Append one more comma-separated piece to a join under construction.
pub fn push_part(out: &mut Vec<u8>, part: &Vec<u8>, Ghost(parts): Ghost<Seq<Seq<u8>>>)
    requires
        old(out)@ == join_commas(parts),
        old(out)@.len() == 0 <==> parts.len() == 0,
    ensures
        final(out)@ == join_commas(parts.push(part@)),
{
    if out.len() > 0 {
        out.push(COMMA);
    }
    append_bytes(out, part);
    proof {
        lemma_join_commas_push(parts, part@);
        if parts.len() == 0 {
            assert(out@ =~= part@);
        } else {
            assert(out@ =~= join_commas(parts) + seq![COMMA] + part@);
        }
    }
}

/// Build one `key="value"` piece.
pub fn part_exec(key: &Vec<u8>, value: &Vec<u8>) -> (r: Vec<u8>)
    ensures
        r@ == label_part(key@, value@),
{
    let mut r = clone_bytes(key);
    r.push(EQUALS);
    r.push(QUOTE);
    append_bytes(&mut r, value);
    r.push(QUOTE);
    proof {
        assert(r@ =~= label_part(key@, value@));
    }
    r
}

/// Copy a byte vector.
pub fn clone_bytes(s: &Vec<u8>) -> (r: Vec<u8>)
    ensures
        r@ == s@,
{
    let mut r: Vec<u8> = Vec::new();
    append_bytes(&mut r, s);
    proof {
        assert(Seq::<u8>::empty() + s@ =~= s@);
    }
    r
}

} // verus!
