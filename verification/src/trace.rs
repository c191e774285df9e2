//! The diagnostic tracer: structured records with uptime-relative
//! timestamps that never move backwards, a verbosity filter that can be
//! reloaded at runtime (an unparseable directive is rejected and the
//! prior one stays in force), and span attachment so that records
//! carry the context of the flow they were emitted under.
use vstd::prelude::*;

use crate::text::{
    append_bytes, ascii_bytes, clone_bytes, dec_str, fmt_u64, join_commas, lit, lower_byte,
    name_byte, pad_byte, pad_left, pad_left_exec, to_lower, trim_back, trim_front, COMMA, EQUALS,
    LBRACE, NEWLINE, RBRACE, SPACE,
};

verus! {

/// Verbosity levels, coarsest first.
#[derive(Clone, Copy, Debug, PartialEq, Eq, Structural)]
pub enum Level {
    Error,
    Warn,
    Info,
    Debug,
    Trace,
}

/// How much a level lets through: a filter at some level admits every
/// record whose level ranks at or below it.
pub open spec fn rank(l: Level) -> int {
    match l {
        Level::Error => 0,
        Level::Warn => 1,
        Level::Info => 2,
        Level::Debug => 3,
        Level::Trace => 4,
    }
}

/// One per-module selector of a filter directive.
#[derive(Debug)]
pub struct Selector {
    pub target: Vec<u8>,
    pub level: Level,
}

/// A verbosity filter: a default level, and per-module selectors that
/// override it for matching targets.
#[derive(Debug)]
pub struct Directive {
    pub default_level: Level,
    pub selectors: Vec<Selector>,
}

/// The abstract content of a directive.
pub open spec fn directive_view(d: Directive) -> (Level, Seq<(Seq<u8>, Level)>) {
    (
        d.default_level,
        Seq::new(d.selectors@.len(), |i: int| (d.selectors@[i].target@, d.selectors@[i].level)),
    )
}

/// A byte allowed in a selector target: module-path characters.
pub open spec fn target_byte(b: u8) -> bool {
    name_byte(b) || b == 58
}

pub open spec fn target_text(s: Seq<u8>) -> bool {
    s.len() > 0 && forall|i: int| 0 <= i < s.len() ==> target_byte(#[trigger] s[i])
}

pub open spec fn eq_ignore_case(a: Seq<u8>, b: Seq<u8>) -> bool {
    a.len() == b.len() && forall|i: int|
        0 <= i < a.len() ==> lower_byte(#[trigger] a[i]) == lower_byte(b[i])
}

/// The level a bare token names, if any.
pub open spec fn level_token(t: Seq<u8>) -> Option<Level> {
    if eq_ignore_case(t, ascii_bytes("error"@)) {
        Some(Level::Error)
    } else if eq_ignore_case(t, ascii_bytes("warn"@)) {
        Some(Level::Warn)
    } else if eq_ignore_case(t, ascii_bytes("info"@)) {
        Some(Level::Info)
    } else if eq_ignore_case(t, ascii_bytes("debug"@)) {
        Some(Level::Debug)
    } else if eq_ignore_case(t, ascii_bytes("trace"@)) {
        Some(Level::Trace)
    } else {
        None
    }
}

/// The index of the first occurrence of `b` in `s`, or -1.
pub open spec fn find_byte(s: Seq<u8>, b: u8) -> int
    decreases s.len(),
{
    if s.len() == 0 {
        -1
    } else if s[0] == b {
        0
    } else {
        let r = find_byte(s.drop_first(), b);
        if r < 0 {
            -1
        } else {
            r + 1
        }
    }
}

pub proof fn lemma_find_byte_at(s: Seq<u8>, b: u8, m: int)
    requires
        0 <= m <= s.len(),
        forall|k: int| 0 <= k < m ==> s[k] != b,
        m < s.len() ==> s[m] == b,
    ensures
        find_byte(s, b) == if m == s.len() {
            -1
        } else {
            m
        },
    decreases s.len(),
{
    if s.len() > 0 {
        if s[0] == b {
        } else {
            let sd = s.drop_first();
            assert forall|k: int| 0 <= k < m - 1 implies sd[k] != b by {
                assert(sd[k] == s[k + 1]);
            }
            assert(m > 0);
            if m - 1 < sd.len() {
                assert(sd[m - 1] == s[m]);
            }
            lemma_find_byte_at(sd, b, m - 1);
        }
    }
}

/// What one comma-separated item of a directive means.
pub enum ItemAction {
    SetDefault(Level),
    SetSelector(Seq<u8>, Level),
    Invalid,
}

/// The meaning of one item: a bare level sets the default level; a bare
/// target enables everything under it; `target=level` sets that
/// target's level; anything else is rejected.
pub open spec fn item_action(raw: Seq<u8>) -> ItemAction {
    let t = trim_back(trim_front(raw));
    if t.len() == 0 {
        ItemAction::Invalid
    } else {
        match level_token(t) {
            Some(l) => ItemAction::SetDefault(l),
            None => {
                let e = find_byte(t, EQUALS);
                if e < 0 {
                    if target_text(t) {
                        ItemAction::SetSelector(t, Level::Trace)
                    } else {
                        ItemAction::Invalid
                    }
                } else {
                    let tgt = trim_back(t.subrange(0, e));
                    let lvl = trim_front(t.subrange(e + 1, t.len() as int));
                    match level_token(lvl) {
                        Some(l) => if target_text(tgt) {
                            ItemAction::SetSelector(tgt, l)
                        } else {
                            ItemAction::Invalid
                        },
                        None => ItemAction::Invalid,
                    }
                }
            },
        }
    }
}

pub open spec fn apply_item(acc: (Level, Seq<(Seq<u8>, Level)>), raw: Seq<u8>) -> Option<
    (Level, Seq<(Seq<u8>, Level)>),
> {
    match item_action(raw) {
        ItemAction::SetDefault(l) => Some((l, acc.1)),
        ItemAction::SetSelector(t, l) => Some((acc.0, acc.1.push((t, l)))),
        ItemAction::Invalid => None,
    }
}

pub open spec fn parse_items(s: Seq<u8>, acc: (Level, Seq<(Seq<u8>, Level)>)) -> Option<
    (Level, Seq<(Seq<u8>, Level)>),
>
    decreases s.len(),
{
    let c = find_byte(s, COMMA);
    if c < 0 || c >= s.len() {
        apply_item(acc, s)
    } else {
        match apply_item(acc, s.subrange(0, c)) {
            Some(acc2) => parse_items(s.subrange(c + 1, s.len() as int), acc2),
            None => None,
        }
    }
}

/// The meaning of a whole directive text: the empty (or blank) text is
/// the default directive; otherwise every comma-separated item must
/// parse, applied left to right.
pub open spec fn parse_directive(s: Seq<u8>) -> Option<(Level, Seq<(Seq<u8>, Level)>)> {
    if trim_back(trim_front(s)).len() == 0 {
        Some((Level::Info, Seq::empty()))
    } else {
        parse_items(s, (Level::Info, Seq::empty()))
    }
}

/// A selector applies to a target when its text is the target or a
/// module-path prefix of it.
pub open spec fn sel_matches(p: Seq<u8>, t: Seq<u8>) -> bool {
    &&& p.len() <= t.len()
    &&& p == t.subrange(0, p.len() as int)
    &&& (p.len() == t.len() || t[p.len() as int] == 58)
}

/// The selector that decides a target: among those that match, the one
/// with the longest text, later entries winning ties.
pub open spec fn best_sel(sels: Seq<(Seq<u8>, Level)>, t: Seq<u8>) -> Option<(Seq<u8>, Level)>
    decreases sels.len(),
{
    if sels.len() == 0 {
        None
    } else {
        let rest = best_sel(sels.drop_last(), t);
        let last = sels.last();
        if sel_matches(last.0, t) {
            match rest {
                None => Some(last),
                Some(b) => if last.0.len() >= b.0.len() {
                    Some(last)
                } else {
                    Some(b)
                },
            }
        } else {
            rest
        }
    }
}

/// The level in force for a target under a directive.
pub open spec fn effective_level(d: (Level, Seq<(Seq<u8>, Level)>), t: Seq<u8>) -> Level {
    match best_sel(d.1, t) {
        None => d.0,
        Some(b) => b.1,
    }
}

/// Whether a record at `level` for `target` is emitted under `d`.
pub open spec fn enabled(d: (Level, Seq<(Seq<u8>, Level)>), target: Seq<u8>, level: Level) -> bool {
    rank(level) <= rank(effective_level(d, target))
}

impl Directive {
    pub open spec fn wf(&self) -> bool {
        forall|i: int| 0 <= i < self.selectors@.len() ==> target_text(
            (#[trigger] self.selectors@[i]).target@,
        )
    }

    /// The default directive: `info`, no selectors.
    pub fn default_directive() -> (r: Directive)
        ensures
            r.wf(),
            directive_view(r) == (Level::Info, Seq::<(Seq<u8>, Level)>::empty()),
    {
        let r = Directive { default_level: Level::Info, selectors: Vec::new() };
        proof {
            assert(directive_view(r).1 =~= Seq::<(Seq<u8>, Level)>::empty());
        }
        r
    }
}

/// Trim padding from `s[lo..hi)`, returning the trimmed bounds.
fn trim_range(s: &Vec<u8>, lo: usize, hi: usize) -> (r: (usize, usize))
    requires
        lo <= hi <= s@.len(),
    ensures
        lo <= r.0 <= r.1 <= hi,
        trim_front(s@.subrange(lo as int, hi as int)) == s@.subrange(r.0 as int, hi as int),
        trim_back(trim_front(s@.subrange(lo as int, hi as int))) == s@.subrange(
            r.0 as int,
            r.1 as int,
        ),
        r.0 < r.1 ==> !pad_byte(s@[r.0 as int]) && !pad_byte(s@[r.1 - 1]),
{
    let mut a = lo;
    while a < hi && (s[a] == 32 || s[a] == 9)
        invariant
            lo <= a <= hi,
            hi <= s@.len(),
            trim_front(s@.subrange(lo as int, hi as int)) == trim_front(
                s@.subrange(a as int, hi as int),
            ),
        decreases hi - a,
    {
        proof {
            assert(s@.subrange(a as int, hi as int).drop_first() =~= s@.subrange(a + 1, hi as int));
        }
        a += 1;
    }
    proof {
        assert(trim_front(s@.subrange(a as int, hi as int)) == s@.subrange(a as int, hi as int));
    }
    let mut b = hi;
    while b > a && (s[b - 1] == 32 || s[b - 1] == 9)
        invariant
            a <= b,
            b <= hi,
            hi <= s@.len(),
            trim_back(s@.subrange(a as int, hi as int)) == trim_back(
                s@.subrange(a as int, b as int),
            ),
        decreases b,
    {
        proof {
            assert(s@.subrange(a as int, b as int).drop_last() =~= s@.subrange(a as int, b - 1));
        }
        b -= 1;
    }
    proof {
        assert(trim_back(s@.subrange(a as int, b as int)) == s@.subrange(a as int, b as int));
    }
    (a, b)
}

/// Does `s[lo..hi)` equal `word`, ignoring letter case?
fn eq_ignore_case_range(s: &Vec<u8>, lo: usize, hi: usize, word: &Vec<u8>) -> (r: bool)
    requires
        lo <= hi <= s@.len(),
    ensures
        r == eq_ignore_case(s@.subrange(lo as int, hi as int), word@),
{
    let ghost t = s@.subrange(lo as int, hi as int);
    if hi - lo != word.len() {
        return false;
    }
    let mut k: usize = 0;
    while k < word.len()
        invariant
            k <= word@.len(),
            lo + word@.len() == hi,
            hi <= s@.len(),
            t == s@.subrange(lo as int, hi as int),
            forall|i: int| 0 <= i < k ==> lower_byte(#[trigger] t[i]) == lower_byte(word@[i]),
        decreases word@.len() - k,
    {
        let cs = to_lower(s[lo + k]);
        let cw = to_lower(word[k]);
        proof {
            assert(t[k as int] == s@[lo + k]);
        }
        if cs != cw {
            return false;
        }
        k += 1;
    }
    true
}

fn level_of_range(s: &Vec<u8>, lo: usize, hi: usize) -> (r: Option<Level>)
    requires
        lo <= hi <= s@.len(),
    ensures
        r == level_token(s@.subrange(lo as int, hi as int)),
{
    proof {
        reveal_strlit("error");
        reveal_strlit("warn");
        reveal_strlit("info");
        reveal_strlit("debug");
        reveal_strlit("trace");
    }
    if eq_ignore_case_range(s, lo, hi, &lit("error")) {
        Some(Level::Error)
    } else if eq_ignore_case_range(s, lo, hi, &lit("warn")) {
        Some(Level::Warn)
    } else if eq_ignore_case_range(s, lo, hi, &lit("info")) {
        Some(Level::Info)
    } else if eq_ignore_case_range(s, lo, hi, &lit("debug")) {
        Some(Level::Debug)
    } else if eq_ignore_case_range(s, lo, hi, &lit("trace")) {
        Some(Level::Trace)
    } else {
        None
    }
}

fn find_eq_range(s: &Vec<u8>, lo: usize, hi: usize) -> (r: Option<usize>)
    requires
        lo <= hi <= s@.len(),
    ensures
        match r {
            Some(e) => lo <= e < hi && find_byte(s@.subrange(lo as int, hi as int), EQUALS) == e
                - lo,
            None => find_byte(s@.subrange(lo as int, hi as int), EQUALS) < 0,
        },
{
    let ghost t = s@.subrange(lo as int, hi as int);
    let mut k: usize = lo;
    while k < hi
        invariant
            lo <= k <= hi,
            hi <= s@.len(),
            t == s@.subrange(lo as int, hi as int),
            forall|i: int| 0 <= i < k - lo ==> #[trigger] t[i] != EQUALS,
        decreases hi - k,
    {
        if s[k] == EQUALS {
            proof {
                assert(t[k - lo] == s@[k as int]);
                lemma_find_byte_at(t, EQUALS, k - lo);
            }
            return Some(k);
        }
        proof {
            assert(t[k - lo] == s@[k as int]);
        }
        k += 1;
    }
    proof {
        lemma_find_byte_at(t, EQUALS, hi - lo);
    }
    None
}

fn target_ok_range(s: &Vec<u8>, lo: usize, hi: usize) -> (r: bool)
    requires
        lo <= hi <= s@.len(),
    ensures
        r == target_text(s@.subrange(lo as int, hi as int)),
{
    let ghost t = s@.subrange(lo as int, hi as int);
    if lo == hi {
        return false;
    }
    let mut k: usize = lo;
    while k < hi
        invariant
            lo <= k <= hi,
            hi <= s@.len(),
            t == s@.subrange(lo as int, hi as int),
            forall|i: int| 0 <= i < k - lo ==> target_byte(#[trigger] t[i]),
        decreases hi - k,
    {
        let b = s[k];
        let ok = (65 <= b && b <= 90) || (97 <= b && b <= 122) || (48 <= b && b <= 57) || b == 95
            || b == 58;
        proof {
            assert(t[k - lo] == s@[k as int]);
        }
        if !ok {
            return false;
        }
        k += 1;
    }
    true
}

fn copy_range(s: &Vec<u8>, lo: usize, hi: usize) -> (r: Vec<u8>)
    requires
        lo <= hi <= s@.len(),
    ensures
        r@ == s@.subrange(lo as int, hi as int),
{
    let mut r: Vec<u8> = Vec::new();
    let mut k: usize = lo;
    while k < hi
        invariant
            lo <= k <= hi,
            hi <= s@.len(),
            r@ == s@.subrange(lo as int, k as int),
        decreases hi - k,
    {
        r.push(s[k]);
        proof {
            assert(s@.subrange(lo as int, k + 1) =~= s@.subrange(lo as int, k as int).push(s@[
                k as int]));
        }
        k += 1;
    }
    r
}

/// Apply one raw directive item to the directive being built.
fn apply_item_exec(d: &mut Directive, s: &Vec<u8>, lo: usize, hi: usize) -> (r: bool)
    requires
        lo <= hi <= s@.len(),
        old(d).wf(),
    ensures
        match apply_item(directive_view(*old(d)), s@.subrange(lo as int, hi as int)) {
            Some(acc2) => r && final(d).wf() && directive_view(*final(d)) == acc2,
            None => !r && *final(d) == *old(d),
        },
{
    let ghost raw = s@.subrange(lo as int, hi as int);
    let (a, b) = trim_range(s, lo, hi);
    let ghost t = trim_back(trim_front(raw));
    proof {
        assert(t == s@.subrange(a as int, b as int));
    }
    if a == b {
        proof {
            assert(t.len() == 0);
        }
        return false;
    }
    let lvl = level_of_range(s, a, b);
    match lvl {
        Some(l) => {
            d.default_level = l;
            proof {
                assert(directive_view(*d).1 =~= directive_view(*old(d)).1);
            }
            return true;
        },
        None => {},
    }
    let eq_pos = find_eq_range(s, a, b);
    match eq_pos {
        None => {
            if target_ok_range(s, a, b) {
                let tgt = copy_range(s, a, b);
                let ghost prev = directive_view(*d);
                d.selectors.push(Selector { target: tgt, level: Level::Trace });
                proof {
                    assert(directive_view(*d).1 =~= prev.1.push((t, Level::Trace)));
                }
                true
            } else {
                false
            }
        },
        Some(e) => {
            proof {
                assert(t.subrange(0, e - a) =~= s@.subrange(a as int, e as int));
                assert(t.subrange(e - a + 1, t.len() as int) =~= s@.subrange(e + 1, b as int));
            }
            let (ta, tb) = trim_range(s, a, e);
            proof {
                if e > a {
                    assert(s@.subrange(a as int, e as int)[0] == s@[a as int]);
                    assert(!pad_byte(s@[a as int]));
                }
                assert(trim_front(s@.subrange(a as int, e as int)) == s@.subrange(
                    a as int,
                    e as int,
                ));
                assert(trim_back(t.subrange(0, e - a)) == s@.subrange(ta as int, tb as int));
            }
            let (la, lb) = trim_range(s, e + 1, b);
            proof {
                assert(trim_front(t.subrange(e - a + 1, t.len() as int)) == s@.subrange(
                    la as int,
                    b as int,
                ));
                if la < b {
                    assert(s@.subrange(la as int, b as int)[b - la - 1] == s@[b - 1]);
                    assert(!pad_byte(s@[b - 1]));
                }
                assert(trim_back(s@.subrange(la as int, b as int)) == s@.subrange(
                    la as int,
                    b as int,
                ));
                assert(lb == b);
            }
            let lvl2 = level_of_range(s, la, b);
            match lvl2 {
                Some(l) => {
                    if target_ok_range(s, ta, tb) {
                        let tgt = copy_range(s, ta, tb);
                        let ghost prev = directive_view(*d);
                        d.selectors.push(Selector { target: tgt, level: l });
                        proof {
                            assert(directive_view(*d).1 =~= prev.1.push((
                                trim_back(t.subrange(0, e - a)),
                                l,
                            )));
                        }
                        true
                    } else {
                        false
                    }
                },
                None => false,
            }
        },
    }
}

/// Parse a whole directive text; the blank text is the default
/// directive.
pub fn parse_directive_exec(text: &Vec<u8>) -> (r: Option<Directive>)
    ensures
        match r {
            Some(d) => d.wf() && parse_directive(text@) == Some(directive_view(d)),
            None => parse_directive(text@) is None,
        },
{
    let ghost s = text@;
    let n = text.len();
    let (w0, w1) = trim_range(text, 0, n);
    proof {
        assert(s.subrange(0, n as int) =~= s);
    }
    if w0 == w1 {
        let d = Directive::default_directive();
        return Some(d);
    }
    let mut d = Directive::default_directive();
    let ghost init = (Level::Info, Seq::<(Seq<u8>, Level)>::empty());
    let mut seg_start: usize = 0;
    let mut j: usize = 0;
    while j <= n
        invariant
            seg_start <= j,
            j <= n,
            n == s.len(),
            s == text@,
            d.wf(),
            seg_start == 0 || s[seg_start - 1] == COMMA,
            forall|k: int| seg_start <= k < j ==> s[k] != COMMA,
            init == (Level::Info, Seq::<(Seq<u8>, Level)>::empty()),
            parse_items(s, init) == parse_items(
                s.subrange(seg_start as int, n as int),
                directive_view(d),
            ),
            trim_back(trim_front(s)).len() != 0,
        decreases n + 1 - j,
    {
        let at_end = j == n;
        if at_end || text[j] == COMMA {
            let ghost rest = s.subrange(seg_start as int, n as int);
            let ghost seg = s.subrange(seg_start as int, j as int);
            let ghost dv = directive_view(d);
            proof {
                assert forall|k: int| 0 <= k < j - seg_start implies #[trigger] rest[k]
                    != COMMA by {
                    assert(rest[k] == s[seg_start + k]);
                }
                if j < n {
                    assert(rest[j - seg_start] == s[j as int]);
                }
                lemma_find_byte_at(rest, COMMA, j - seg_start);
                assert(rest.subrange(0, j - seg_start) =~= seg);
            }
            let ok = apply_item_exec(&mut d, text, seg_start, j);
            if !ok {
                proof {
                    assert(apply_item(dv, seg) is None);
                    if j == n {
                        assert(rest =~= seg);
                        assert(rest == seg);
                        assert(parse_items(rest, dv) == apply_item(dv, rest));
                        assert(parse_items(rest, dv) is None);
                    } else {
                        assert(rest.subrange(0, j - seg_start) == seg);
                        assert(parse_items(rest, dv) is None);
                    }
                    assert(parse_items(s, init) is None);
                    assert(trim_back(trim_front(s)).len() != 0);
                    assert(parse_directive(s) == parse_items(
                        s,
                        (Level::Info, Seq::<(Seq<u8>, Level)>::empty()),
                    ));
                    assert(parse_directive(s) is None);
                }
                return None;
            }
            if at_end {
                proof {
                    assert(apply_item(dv, seg) == Some(directive_view(d)));
                    assert(rest =~= seg);
                    assert(rest == seg);
                    assert(parse_items(rest, dv) == apply_item(dv, rest));
                    assert(parse_items(s, init) == Some(directive_view(d)));
                    assert(trim_back(trim_front(s)).len() != 0);
                    assert(parse_directive(s) == parse_items(
                        s,
                        (Level::Info, Seq::<(Seq<u8>, Level)>::empty()),
                    ));
                    assert(parse_directive(s) == Some(directive_view(d)));
                }
                return Some(d);
            }
            proof {
                assert(rest.subrange(j - seg_start + 1, rest.len() as int) =~= s.subrange(
                    j + 1,
                    n as int,
                ));
            }
            seg_start = j + 1;
        }
        j += 1;
    }
    proof {
        assert(false);
    }
    None
}

/// The lowercase name of a level, as directives write it.
pub open spec fn level_value(l: Level) -> Seq<u8> {
    match l {
        Level::Error => ascii_bytes("error"@),
        Level::Warn => ascii_bytes("warn"@),
        Level::Info => ascii_bytes("info"@),
        Level::Debug => ascii_bytes("debug"@),
        Level::Trace => ascii_bytes("trace"@),
    }
}

/// The uppercase name of a level, as records write it.
pub open spec fn level_upper(l: Level) -> Seq<u8> {
    match l {
        Level::Error => ascii_bytes("ERROR"@),
        Level::Warn => ascii_bytes("WARN"@),
        Level::Info => ascii_bytes("INFO"@),
        Level::Debug => ascii_bytes("DEBUG"@),
        Level::Trace => ascii_bytes("TRACE"@),
    }
}

pub open spec fn sels_text(sels: Seq<(Seq<u8>, Level)>) -> Seq<u8>
    decreases sels.len(),
{
    if sels.len() == 0 {
        Seq::empty()
    } else {
        sels_text(sels.drop_last()) + seq![COMMA] + sels.last().0 + seq![EQUALS] + level_value(
            sels.last().1,
        )
    }
}

/// A directive re-serialized: the default level, then each selector as
/// `target=level`.
pub open spec fn directive_text(v: (Level, Seq<(Seq<u8>, Level)>)) -> Seq<u8> {
    level_value(v.0) + sels_text(v.1)
}

pub fn level_value_bytes(l: Level) -> (r: Vec<u8>)
    ensures
        r@ == level_value(l),
{
    proof {
        reveal_strlit("error");
        reveal_strlit("warn");
        reveal_strlit("info");
        reveal_strlit("debug");
        reveal_strlit("trace");
    }
    match l {
        Level::Error => lit("error"),
        Level::Warn => lit("warn"),
        Level::Info => lit("info"),
        Level::Debug => lit("debug"),
        Level::Trace => lit("trace"),
    }
}

pub fn level_upper_bytes(l: Level) -> (r: Vec<u8>)
    ensures
        r@ == level_upper(l),
{
    proof {
        reveal_strlit("ERROR");
        reveal_strlit("WARN");
        reveal_strlit("INFO");
        reveal_strlit("DEBUG");
        reveal_strlit("TRACE");
    }
    match l {
        Level::Error => lit("ERROR"),
        Level::Warn => lit("WARN"),
        Level::Info => lit("INFO"),
        Level::Debug => lit("DEBUG"),
        Level::Trace => lit("TRACE"),
    }
}

/// Rejected filter directive text; the prior directive stays in force.
#[derive(Clone, Copy, Debug, PartialEq, Eq, Structural)]
pub struct FilterParseError;

/// A handle on the reloadable verbosity filter.
#[derive(Debug)]
pub struct LevelHandle {
    directive: Directive,
}

impl LevelHandle {
    /// The filter currently in force.
    pub closed spec fn filter(&self) -> (Level, Seq<(Seq<u8>, Level)>) {
        directive_view(self.directive)
    }

    pub closed spec fn wf(&self) -> bool {
        self.directive.wf()
    }

    /// A handle holding the default directive, not connected to any
    /// particular subscriber.
    pub fn dangling() -> (r: LevelHandle)
        ensures
            r.wf(),
            r.filter() == (Level::Info, Seq::<(Seq<u8>, Level)>::empty()),
    {
        LevelHandle { directive: Directive::default_directive() }
    }

    /// Replace the filter with the parse of `text`; a text that does
    /// not parse is rejected and the prior filter stays in force.
    pub fn set_level(&mut self, text: &Vec<u8>) -> (r: Result<(), FilterParseError>)
        requires
            old(self).wf(),
        ensures
            final(self).wf(),
            match parse_directive(text@) {
                Some(v) => r is Ok && final(self).filter() == v,
                None => r is Err && *final(self) == *old(self),
            },
    {
        match parse_directive_exec(text) {
            Some(d) => {
                self.directive = d;
                Ok(())
            },
            None => Err(FilterParseError),
        }
    }

    /// The directive currently in force, re-serialized.
    pub fn current(&self) -> (r: Vec<u8>)
        ensures
            r@ == directive_text(self.filter()),
    {
        let mut out = level_value_bytes(self.directive.default_level);
        let ghost v = directive_view(self.directive);
        let n = self.directive.selectors.len();
        let mut j: usize = 0;
        while j < n
            invariant
                j <= n,
                n == self.directive.selectors@.len(),
                v == directive_view(self.directive),
                out@ == level_value(v.0) + sels_text(v.1.subrange(0, j as int)),
            decreases n - j,
        {
            let sel = &self.directive.selectors[j];
            out.push(COMMA);
            append_bytes(&mut out, &sel.target);
            out.push(EQUALS);
            let lv = level_value_bytes(sel.level);
            append_bytes(&mut out, &lv);
            proof {
                assert(v.1.subrange(0, j + 1).drop_last() =~= v.1.subrange(0, j as int));
                assert(v.1.subrange(0, j + 1).last() == v.1[j as int]);
                assert(v.1[j as int] == (self.directive.selectors@[j as int].target@,
                    self.directive.selectors@[j as int].level));
                assert(out@ =~= level_value(v.0) + sels_text(v.1.subrange(0, j + 1)));
            }
            j += 1;
        }
        proof {
            assert(v.1.subrange(0, v.1.len() as int) =~= v.1);
        }
        out
    }
}

fn rank_exec(l: Level) -> (r: u8)
    ensures
        r as int == rank(l),
{
    match l {
        Level::Error => 0,
        Level::Warn => 1,
        Level::Info => 2,
        Level::Debug => 3,
        Level::Trace => 4,
    }
}

fn sel_matches_exec(p: &Vec<u8>, t: &Vec<u8>) -> (r: bool)
    ensures
        r == sel_matches(p@, t@),
{
    if p.len() > t.len() {
        return false;
    }
    if p.len() < t.len() && t[p.len()] != 58 {
        return false;
    }
    let mut k: usize = 0;
    while k < p.len()
        invariant
            k <= p@.len(),
            p@.len() <= t@.len(),
            forall|i: int| 0 <= i < k ==> #[trigger] p@[i] == t@[i],
        decreases p@.len() - k,
    {
        if p[k] != t[k] {
            proof {
                assert(t@.subrange(0, p@.len() as int)[k as int] == t@[k as int]);
            }
            return false;
        }
        k += 1;
    }
    proof {
        assert(p@ =~= t@.subrange(0, p@.len() as int));
    }
    true
}

/// The level in force for `target` under `d`.
pub fn effective_level_exec(d: &Directive, target: &Vec<u8>) -> (r: Level)
    ensures
        r == effective_level(directive_view(*d), target@),
{
    let ghost v = directive_view(*d);
    let mut best: Option<usize> = None;
    let n = d.selectors.len();
    let mut j: usize = 0;
    while j < n
        invariant
            j <= n,
            n == d.selectors@.len(),
            v == directive_view(*d),
            match best {
                None => best_sel(v.1.subrange(0, j as int), target@) is None,
                Some(b) => b < j && best_sel(v.1.subrange(0, j as int), target@) == Some(
                    v.1[b as int],
                ),
            },
        decreases n - j,
    {
        let sel = &d.selectors[j];
        proof {
            assert(v.1.subrange(0, j + 1).drop_last() =~= v.1.subrange(0, j as int));
            assert(v.1.subrange(0, j + 1).last() == v.1[j as int]);
            assert(v.1[j as int] == (d.selectors@[j as int].target@, d.selectors@[j as int].level));
        }
        if sel_matches_exec(&sel.target, target) {
            match best {
                None => {
                    best = Some(j);
                },
                Some(b) => {
                    let bl = d.selectors[b].target.len();
                    proof {
                        assert(v.1[b as int] == (d.selectors@[b as int].target@,
                            d.selectors@[b as int].level));
                    }
                    if sel.target.len() >= bl {
                        best = Some(j);
                    }
                },
            }
        }
        j += 1;
    }
    proof {
        assert(v.1.subrange(0, v.1.len() as int) =~= v.1);
    }
    match best {
        None => d.default_level,
        Some(b) => {
            proof {
                assert(v.1[b as int] == (d.selectors@[b as int].target@,
                    d.selectors@[b as int].level));
            }
            d.selectors[b].level
        },
    }
}

/// One span of diagnostic context: a name and key=value fields.
#[derive(Debug)]
pub struct Span {
    pub name: Vec<u8>,
    pub fields: Vec<(Vec<u8>, Vec<u8>)>,
}

pub open spec fn field_parts(fs: Seq<(Vec<u8>, Vec<u8>)>) -> Seq<Seq<u8>> {
    Seq::new(fs.len(), |i: int| fs[i].0@ + seq![EQUALS] + fs[i].1@)
}

/// How one span appears in a record: its name, with its fields in
/// braces when it has any.
pub open spec fn span_text(s: Span) -> Seq<u8> {
    s.name@ + if s.fields@.len() == 0 {
        Seq::<u8>::empty()
    } else {
        seq![LBRACE] + join_commas(field_parts(s.fields@)) + seq![RBRACE]
    }
}

impl Span {
    pub fn new(name: Vec<u8>) -> (r: Span)
        ensures
            r.name@ == name@,
            r.fields@.len() == 0,
    {
        Span { name, fields: Vec::new() }
    }

    pub fn duplicate(&self) -> (r: Span)
        ensures
            span_text(r) == span_text(*self),
    {
        let name = clone_bytes(&self.name);
        let mut fields: Vec<(Vec<u8>, Vec<u8>)> = Vec::new();
        let mut j: usize = 0;
        while j < self.fields.len()
            invariant
                j <= self.fields@.len(),
                fields@.len() == j,
                forall|i: int| 0 <= i < j ==> (#[trigger] fields@[i]).0@ == self.fields@[i].0@
                    && fields@[i].1@ == self.fields@[i].1@,
            decreases self.fields@.len() - j,
        {
            let k = clone_bytes(&self.fields[j].0);
            let v = clone_bytes(&self.fields[j].1);
            fields.push((k, v));
            j += 1;
        }
        let r = Span { name, fields };
        proof {
            assert(field_parts(r.fields@) =~= field_parts(self.fields@));
        }
        r
    }
}

fn span_text_exec(s: &Span) -> (r: Vec<u8>)
    ensures
        r@ == span_text(*s),
{
    let mut out = clone_bytes(&s.name);
    if s.fields.len() > 0 {
        out.push(LBRACE);
        let ghost before = out@;
        let mut joined: Vec<u8> = Vec::new();
        let mut j: usize = 0;
        while j < s.fields.len()
            invariant
                j <= s.fields@.len(),
                joined@ == join_commas(field_parts(s.fields@).subrange(0, j as int)),
                joined@.len() == 0 <==> j == 0,
            decreases s.fields@.len() - j,
        {
            let mut part = clone_bytes(&s.fields[j].0);
            part.push(EQUALS);
            append_bytes(&mut part, &s.fields[j].1);
            proof {
                assert(part@ =~= field_parts(s.fields@)[j as int]);
                assert(field_parts(s.fields@).subrange(0, j as int).len() == 0 <==> j == 0);
            }
            crate::text::push_part(
                &mut joined,
                &part,
                Ghost(field_parts(s.fields@).subrange(0, j as int)),
            );
            proof {
                assert(field_parts(s.fields@).subrange(0, j + 1) =~= field_parts(
                    s.fields@,
                ).subrange(0, j as int).push(part@));
                crate::text::lemma_join_commas_push(
                    field_parts(s.fields@).subrange(0, j as int),
                    part@,
                );
                assert(part@.len() > 0 || part@.len() == 0);
                assert(joined@.len() >= part@.len());
                assert(part@.len() >= 1);
            }
            j += 1;
        }
        proof {
            assert(field_parts(s.fields@).subrange(0, field_parts(s.fields@).len() as int)
                =~= field_parts(s.fields@));
        }
        append_bytes(&mut out, &joined);
        out.push(RBRACE);
        proof {
            assert(out@ =~= span_text(*s));
        }
    } else {
        proof {
            assert(out@ =~= span_text(*s));
        }
    }
    out
}

/// The span context of a record: every entered span, innermost last,
/// each followed by a colon.
pub open spec fn ctx_text(stack: Seq<Span>) -> Seq<u8>
    decreases stack.len(),
{
    if stack.len() == 0 {
        Seq::empty()
    } else {
        ctx_text(stack.drop_last()) + span_text(stack.last()) + seq![58u8]
    }
}

/// The timestamp of a record: uptime seconds right-aligned to six
/// columns, a dot, and the subsecond nanoseconds zero-padded to six
/// digits, in brackets with a trailing `s`.
pub open spec fn stamp_text(nanos: u64) -> Seq<u8> {
    seq![91u8] + pad_left(dec_str((nanos / 1000000000) as nat), SPACE, 6) + seq![46u8] + pad_left(
        dec_str((nanos % 1000000000) as nat),
        48u8,
        6,
    ) + seq![115u8, 93u8]
}

/// One whole record line.
pub open spec fn record_text(
    stamp_nanos: u64,
    level: Level,
    stack: Seq<Span>,
    target: Seq<u8>,
    msg: Seq<u8>,
) -> Seq<u8> {
    stamp_text(stamp_nanos) + seq![SPACE] + level_upper(level) + seq![SPACE] + ctx_text(stack) + (
    if stack.len() > 0 {
        seq![SPACE]
    } else {
        Seq::<u8>::empty()
    }) + target + seq![58u8, SPACE] + msg + seq![NEWLINE]
}

fn stamp_text_exec(nanos: u64) -> (r: Vec<u8>)
    ensures
        r@ == stamp_text(nanos),
{
    let mut out: Vec<u8> = Vec::new();
    out.push(91);
    let secs = fmt_u64(nanos / 1000000000);
    let secs_padded = pad_left_exec(&secs, SPACE, 6);
    append_bytes(&mut out, &secs_padded);
    out.push(46);
    let subs = fmt_u64(nanos % 1000000000);
    let subs_padded = pad_left_exec(&subs, 48, 6);
    append_bytes(&mut out, &subs_padded);
    out.push(115);
    out.push(93);
    proof {
        assert(out@ =~= stamp_text(nanos));
    }
    out
}

/// The diagnostic tracer: the verbosity filter, the span stack of the
/// flow being executed, and the uptime stamp of the last record, which
/// never moves backwards.
pub struct Tracer {
    pub handle: LevelHandle,
    last_stamp: u64,
    spans: Vec<Span>,
    history: Ghost<Seq<u64>>,
}

impl Tracer {
    /// The uptime stamps of every record emitted so far, in order.
    pub closed spec fn stamps(&self) -> Seq<u64> {
        self.history@
    }

    /// The stamp of the latest record.
    pub closed spec fn latest(&self) -> u64 {
        self.last_stamp
    }

    pub closed spec fn span_stack(&self) -> Seq<Span> {
        self.spans@
    }

    pub closed spec fn filter(&self) -> (Level, Seq<(Seq<u8>, Level)>) {
        self.handle.filter()
    }

    pub closed spec fn wf(&self) -> bool {
        &&& self.handle.wf()
        &&& forall|i: int, j: int|
            #![trigger self.history@[i], self.history@[j]]
            0 <= i && i <= j && j < self.history@.len() ==> self.history@[i] <= self.history@[j]
        &&& forall|i: int| 0 <= i < self.history@.len() ==> #[trigger] self.history@[i]
            <= self.last_stamp
    }

    pub fn new() -> (r: Tracer)
        ensures
            r.wf(),
            r.filter() == (Level::Info, Seq::<(Seq<u8>, Level)>::empty()),
            r.stamps() =~= Seq::<u64>::empty(),
            r.span_stack() =~= Seq::<Span>::empty(),
            r.latest() == 0,
    {
        Tracer {
            handle: LevelHandle::dangling(),
            last_stamp: 0,
            spans: Vec::new(),
            history: Ghost(Seq::empty()),
        }
    }

    /// Enter a span: records emitted until the matching exit carry it.
    pub fn enter_span(&mut self, span: Span)
        requires
            old(self).wf(),
        ensures
            final(self).wf(),
            final(self).span_stack() == old(self).span_stack().push(span),
            final(self).stamps() == old(self).stamps(),
            final(self).latest() == old(self).latest(),
            final(self).filter() == old(self).filter(),
    {
        self.spans.push(span);
    }

    /// Leave the innermost span, returning it.
    pub fn exit_span(&mut self) -> (r: Option<Span>)
        requires
            old(self).wf(),
        ensures
            final(self).wf(),
            old(self).span_stack().len() == 0 ==> r is None && final(self).span_stack()
                == old(self).span_stack(),
            old(self).span_stack().len() > 0 ==> match r {
                Some(s) => s == old(self).span_stack().last() && final(self).span_stack()
                    == old(self).span_stack().drop_last(),
                None => false,
            },
            final(self).stamps() == old(self).stamps(),
            final(self).latest() == old(self).latest(),
            final(self).filter() == old(self).filter(),
    {
        self.spans.pop()
    }

    /// Emit one record, if the filter lets it through. Its stamp is the
    /// given uptime, or the previous record's stamp if that is later:
    /// stamps never move backwards.
    pub fn record(&mut self, now_nanos: u64, level: Level, target: &Vec<u8>, msg: &Vec<u8>) -> (r:
        Option<Vec<u8>>)
        requires
            old(self).wf(),
        ensures
            final(self).wf(),
            final(self).filter() == old(self).filter(),
            final(self).span_stack() == old(self).span_stack(),
            if enabled(old(self).filter(), target@, level) {
                ({
                    let stamp = if now_nanos > old(self).latest() {
                        now_nanos
                    } else {
                        old(self).latest()
                    };
                    match r {
                        Some(line) => line@ == record_text(
                            stamp,
                            level,
                            old(self).span_stack(),
                            target@,
                            msg@,
                        ) && final(self).stamps() == old(self).stamps().push(stamp)
                            && final(self).latest() == stamp,
                        None => false,
                    }
                })
            } else {
                r is None && final(self).stamps() == old(self).stamps() && final(self).latest()
                    == old(self).latest()
            },
    {
        let eff = effective_level_exec(&self.handle.directive, target);
        if rank_exec(level) > rank_exec(eff) {
            return None;
        }
        let stamp = if now_nanos > self.last_stamp {
            now_nanos
        } else {
            self.last_stamp
        };
        let mut line = stamp_text_exec(stamp);
        line.push(SPACE);
        let lv = level_upper_bytes(level);
        append_bytes(&mut line, &lv);
        line.push(SPACE);
        let ghost stack = self.spans@;
        let n = self.spans.len();
        let ghost head = line@;
        let mut j: usize = 0;
        while j < n
            invariant
                j <= n,
                n == self.spans@.len(),
                stack == self.spans@,
                line@ == head + ctx_text(stack.subrange(0, j as int)),
            decreases n - j,
        {
            let st = span_text_exec(&self.spans[j]);
            append_bytes(&mut line, &st);
            line.push(58);
            proof {
                assert(stack.subrange(0, j + 1).drop_last() =~= stack.subrange(0, j as int));
                assert(stack.subrange(0, j + 1).last() == stack[j as int]);
                assert(line@ =~= head + ctx_text(stack.subrange(0, j + 1)));
            }
            j += 1;
        }
        proof {
            assert(stack.subrange(0, stack.len() as int) =~= stack);
        }
        if n > 0 {
            line.push(SPACE);
        }
        append_bytes(&mut line, target);
        line.push(58);
        line.push(SPACE);
        append_bytes(&mut line, msg);
        line.push(NEWLINE);
        proof {
            assert(line@ =~= record_text(stamp, level, stack, target@, msg@));
            self.history@ = self.history@.push(stamp);
        }
        self.last_stamp = stamp;
        Some(line)
    }

    /// Reload the verbosity filter; a successful reload emits an
    /// info-level record announcing the new level, filtered by the new
    /// directive. A text that does not parse is rejected and nothing
    /// changes.
    pub fn set_level(&mut self, text: &Vec<u8>, now_nanos: u64) -> (r: Result<
        Option<Vec<u8>>,
        FilterParseError,
    >)
        requires
            old(self).wf(),
        ensures
            final(self).wf(),
            final(self).span_stack() == old(self).span_stack(),
            match parse_directive(text@) {
                Some(v) => final(self).filter() == v && ({
                    let target = ascii_bytes("telemetry_core"@);
                    let msg = ascii_bytes("set new log level level="@) + text@;
                    let stamp = if now_nanos > old(self).latest() {
                        now_nanos
                    } else {
                        old(self).latest()
                    };
                    match r {
                        Ok(line_opt) => if enabled(v, target, Level::Info) {
                            match line_opt {
                                Some(line) => line@ == record_text(
                                    stamp,
                                    Level::Info,
                                    old(self).span_stack(),
                                    target,
                                    msg,
                                ) && final(self).stamps() == old(self).stamps().push(stamp),
                                None => false,
                            }
                        } else {
                            line_opt is None && final(self).stamps() == old(self).stamps()
                        },
                        Err(_) => false,
                    }
                }),
                None => r is Err && *final(self) == *old(self),
            },
    {
        let res = self.handle.set_level(text);
        match res {
            Ok(()) => {
                proof {
                    reveal_strlit("telemetry_core");
                    reveal_strlit("set new log level level=");
                }
                let target = lit("telemetry_core");
                let mut msg = lit("set new log level level=");
                append_bytes(&mut msg, text);
                let line = self.record(now_nanos, Level::Info, &target, &msg);
                Ok(line)
            },
            Err(e) => Err(e),
        }
    }
}

/// Uptime monotonicity: every record's stamp is at least every earlier
/// record's stamp.
pub proof fn lemma_stamps_monotone(t: Tracer)
    requires
        t.wf(),
    ensures
        forall|i: int, j: int|
            #![trigger t.stamps()[i], t.stamps()[j]]
            0 <= i && i <= j && j < t.stamps().len() ==> t.stamps()[i] <= t.stamps()[j],
{
}

/// Something that can produce the span describing a target.
pub trait GetSpan<T> {
    fn get_span(&self, target: &T) -> Span;
}

impl<T> GetSpan<T> for Span {
    fn get_span(&self, _target: &T) -> Span {
        self.duplicate()
    }
}

impl<T: GetSpan<()>> GetSpan<T> for () {
    fn get_span(&self, t: &T) -> Span {
        t.get_span(&())
    }
}

/// Something that builds a service for a target.
pub trait NewService<T> {
    type Service;

    fn new_service(&self, target: T) -> Self::Service;
}

/// A stack layer that wraps every built service so that its work runs
/// under the span its target describes.
#[derive(Debug)]
pub struct Layer<G> {
    get_span: G,
}

/// The service builder a `Layer` wraps around an inner builder.
#[derive(Debug)]
pub struct MakeSpan<G, M> {
    get_span: G,
    make: M,
}

/// A built service together with the span its operations run under.
#[derive(Debug)]
pub struct SetSpan<S> {
    pub span: Span,
    pub inner: S,
}

impl<G> Layer<G> {
    /// The span source this layer installs around built services.
    pub closed spec fn span_source(&self) -> G {
        self.get_span
    }

    pub fn new(get_span: G) -> (r: Layer<G>)
        ensures
            r.span_source() == get_span,
    {
        Layer { get_span }
    }

    /// Wrap an inner service builder.
    pub fn layer<M>(self, make: M) -> (r: MakeSpan<G, M>)
        ensures
            r.span_source() == self.span_source(),
            r.inner_make() == make,
    {
        MakeSpan { get_span: self.get_span, make }
    }
}

impl Layer<()> {
    /// A layer whose targets describe their own spans.
    pub fn from_target() -> (r: Layer<()>)
        ensures
            r.span_source() == (),
    {
        Layer::new(())
    }
}

impl<G, M> MakeSpan<G, M> {
    pub closed spec fn span_source(&self) -> G {
        self.get_span
    }

    pub closed spec fn inner_make(&self) -> M {
        self.make
    }
}

impl<T, G: GetSpan<T>, N: NewService<T>> NewService<T> for MakeSpan<G, N> {
    type Service = SetSpan<N::Service>;

    fn new_service(&self, target: T) -> SetSpan<N::Service> {
        let span = self.get_span.get_span(&target);
        let inner = self.make.new_service(target);
        SetSpan { span, inner }
    }
}

impl<S> SetSpan<S> {
    /// Install this service's span for the extent of one operation:
    /// the caller pairs it with `leave` on every path out.
    pub fn enter(&self, tracer: &mut Tracer)
        requires
            old(tracer).wf(),
        ensures
            final(tracer).wf(),
            final(tracer).span_stack().len() == old(tracer).span_stack().len() + 1,
            final(tracer).span_stack().drop_last() == old(tracer).span_stack(),
            span_text(final(tracer).span_stack().last()) == span_text(self.span),
            final(tracer).stamps() == old(tracer).stamps(),
            final(tracer).filter() == old(tracer).filter(),
    {
        let s = self.span.duplicate();
        tracer.enter_span(s);
        proof {
            assert(final(tracer).span_stack().drop_last() =~= old(tracer).span_stack());
        }
    }

    /// Remove the innermost span on the way out of an operation.
    pub fn leave(&self, tracer: &mut Tracer)
        requires
            old(tracer).wf(),
        ensures
            final(tracer).wf(),
            old(tracer).span_stack().len() > 0 ==> final(tracer).span_stack() == old(
                tracer,
            ).span_stack().drop_last(),
            final(tracer).stamps() == old(tracer).stamps(),
            final(tracer).filter() == old(tracer).filter(),
    {
        let _ = tracer.exit_span();
    }
}

} // verus!
