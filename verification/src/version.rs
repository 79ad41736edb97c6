//! Version numbers of the workspace: bumping a `MAJOR.MINOR.PATCH` version,
//! and reading and rewriting the version in the manifests' text.
use vstd::prelude::*;
use crate::text::{
    chars_of, contains_seq, find_chars, find_seq, lemma_find_from_bound, line_of, line_of_exec, lines,
    push_all, replace_all, replace_all_exec, slice_chars, split_incl, split_incl_exec, string_from_chars,
    strip_prefix, strip_prefix_exec, trim, trim_char, trim_char_exec, trim_exec, trim_start,
    trim_start_exec, matches_at, pieces_ok, is_ws, trim_end, strip_start_char, strip_end_char,
};

verus! {

/// Why a number did not parse (as `u64::from_str` tells it).
#[derive(Debug, Clone, Copy, PartialEq, Eq)]
pub enum ParseFailure {
    Empty,
    InvalidDigit,
    PosOverflow,
}

/// A part of a version number.
#[derive(Debug, Clone, Copy, PartialEq, Eq)]
pub enum VersionPart {
    Major,
    Minor,
    Patch,
}

/// How to bump a version.
#[derive(Debug, Clone)]
pub enum BumpKind {
    Patch,
    Minor,
    Major,
    Pre(String),
}

/// Why a version could not be worked out.
#[derive(Debug, Clone, PartialEq)]
pub enum VersionError {
    /// The version is not three numbers joined by dots.
    NotMajorMinorPatch { version: String },
    /// A part of the version is not a number.
    BadNumber { part: VersionPart, reason: ParseFailure },
    /// `bump` was given no argument.
    MissingBumpArg,
    /// `--pre` was given no identifier.
    PreNeedsId,
    /// `--set` was given no version.
    SetNeedsVersion,
    /// `bump` was given an argument it does not know.
    UnknownBumpArg { arg: String },
    /// The manifest has no `[workspace.package]` block.
    NoPackageBlock,
    /// The `[workspace.package]` block has no `version` key.
    NoVersionKey,
    /// No `version = ` line follows `[workspace.package]`.
    NoVersionLine,
    /// `pyproject.toml` has no version line.
    NoPyprojectVersion,
}

/// An ASCII decimal digit.
pub open spec fn is_digit(c: char) -> bool {
    '0' <= c && c <= '9'
}

/// Reads decimal digits from the left onto `acc`, as `u64::from_str` does:
/// a non-digit is `InvalidDigit`, a value past `u64::MAX` is `PosOverflow`,
/// whichever comes first.
pub open spec fn parse_digits(d: Seq<char>, acc: int) -> Result<u64, ParseFailure>
    decreases d.len(),
{
    if d.len() == 0 {
        Ok(acc as u64)
    } else if !is_digit(d[0]) {
        Err(ParseFailure::InvalidDigit)
    } else if acc * 10 + (d[0] as int - 48) > u64::MAX {
        Err(ParseFailure::PosOverflow)
    } else {
        parse_digits(d.drop_first(), acc * 10 + (d[0] as int - 48))
    }
}

/// `u64::from_str`: an optional `+`, then decimal digits.
pub open spec fn parse_u64(s: Seq<char>) -> Result<u64, ParseFailure> {
    if s.len() == 0 {
        Err(ParseFailure::Empty)
    } else if s.len() == 1 && (s[0] == '+' || s[0] == '-') {
        Err(ParseFailure::InvalidDigit)
    } else if s[0] == '+' {
        parse_digits(s.drop_first(), 0)
    } else {
        parse_digits(s, 0)
    }
}

/// Parses a `u64` as `u64::from_str` does.
pub fn parse_u64_exec(s: &[char]) -> (r: Result<u64, ParseFailure>)
    ensures
        r == parse_u64(s@),
{
    if s.len() == 0 {
        return Err(ParseFailure::Empty);
    }
    if s.len() == 1 && (s[0] == '+' || s[0] == '-') {
        return Err(ParseFailure::InvalidDigit);
    }
    let start: usize = if s[0] == '+' { 1 } else { 0 };
    let ghost d = s@.skip(start as int);
    assert(d =~= (if s@[0] == '+' { s@.drop_first() } else { s@ }));
    assert(s@.skip(start as int) =~= s@.skip(start as int));
    let mut acc: u64 = 0;
    let mut i: usize = start;
    while i < s.len()
        invariant
            start <= i <= s.len(),
            d == s@.skip(start as int),
            parse_u64(s@) == parse_digits(d, 0),
            parse_digits(d, 0) == parse_digits(s@.skip(i as int), acc as int),
        decreases s.len() - i,
    {
        let c = s[i];
        assert(s@.skip(i as int)[0] == c);
        assert(s@.skip(i as int).drop_first() =~= s@.skip(i + 1));
        if !('0' <= c && c <= '9') {
            return Err(ParseFailure::InvalidDigit);
        }
        let digit = (c as u32 - 48) as u64;
        assert(digit as int == c as int - 48);
        if acc > 1844674407370955161u64 || (acc == 1844674407370955161u64 && digit > 5) {
            return Err(ParseFailure::PosOverflow);
        }
        acc = acc * 10 + digit;
        i = i + 1;
    }
    assert(s@.skip(i as int).len() == 0);
    Ok(acc)
}


/// The decimal digit character of `d` (0 to 9).
pub open spec fn digit_char(d: int) -> char {
    (d + 48) as char
}

/// `n` written in decimal, as `format!("{}", n)` writes it.
pub open spec fn decimal(n: nat) -> Seq<char>
    decreases n,
{
    if n < 10 {
        seq![digit_char(n as int)]
    } else {
        decimal(n / 10).push(digit_char((n % 10) as int))
    }
}

fn push_decimal(n: u64, out: &mut Vec<char>)
    ensures
        final(out)@ == old(out)@ + decimal(n as nat),
    decreases n,
{
    if n >= 10 {
        push_decimal(n / 10, out);
    }
    let d = n % 10;
    let ch = if d == 0 {
        '0'
    } else if d == 1 {
        '1'
    } else if d == 2 {
        '2'
    } else if d == 3 {
        '3'
    } else if d == 4 {
        '4'
    } else if d == 5 {
        '5'
    } else if d == 6 {
        '6'
    } else if d == 7 {
        '7'
    } else if d == 8 {
        '8'
    } else {
        '9'
    };
    assert(ch == digit_char(d as int));
    out.push(ch);
    proof {
        if n >= 10 {
            assert(decimal(n as nat) == decimal((n / 10) as nat).push(digit_char((n % 10) as int)));
        }
    }
    assert(out@ =~= old(out)@ + decimal(n as nat));
}


/// `str::split` by a character: the pieces between its occurrences, in order.
pub open spec fn split_char(s: Seq<char>, c: char) -> Seq<Seq<char>>
    decreases s.len(),
{
    match find_seq(s, seq![c]) {
        Some(i) => {
            proof {
                lemma_find_from_bound(s, seq![c], 0);
            }
            seq![s.take(i)] + split_char(s.skip(i + 1), c)
        },
        None => seq![s],
    }
}

/// What comes before the first `-` (all of it when there is none).
pub open spec fn core_of(v: Seq<char>) -> Seq<char> {
    match find_seq(v, seq!['-']) {
        Some(i) => v.take(i),
        None => v,
    }
}

/// Splits by a character (see `split_char`).
pub fn split_char_exec(s: &[char], c: char) -> (r: Vec<Vec<char>>)
    ensures
        r@.map_values(|x: Vec<char>| x@) == split_char(s@, c),
{
    let mut sep: Vec<char> = Vec::new();
    sep.push(c);
    assert(sep@ =~= seq![c]);
    let mut out: Vec<Vec<char>> = Vec::new();
    let mut rest = slice_chars(s, 0, s.len());
    assert(rest@ =~= s@.subrange(0, s@.len() as int));
    assert(s@.subrange(0, s@.len() as int) =~= s@);
    while true
        invariant
            split_char(s@, c) == out@.map_values(|x: Vec<char>| x@) + split_char(rest@, c),
            sep@ == seq![c],
        decreases rest@.len(),
    {
        match find_chars(rest.as_slice(), sep.as_slice()) {
            Some(i) => {
                proof {
                    lemma_find_from_bound(rest@, sep@, 0);
                    assert(sep@.len() == 1);
                }
                assert(i + 1 <= rest.len());
                let piece = slice_chars(rest.as_slice(), 0, i);
                let next = slice_chars(rest.as_slice(), i + 1, rest.len());
                let ghost prev = out@.map_values(|x: Vec<char>| x@);
                assert(piece@ =~= rest@.take(i as int));
                assert(next@ =~= rest@.skip(i + 1));
                out.push(piece);
                assert(out@.map_values(|x: Vec<char>| x@) =~= prev.push(rest@.take(i as int)));
                assert(prev + split_char(rest@, c) =~= prev.push(rest@.take(i as int)) + split_char(next@, c));
                rest = next;
            },
            None => {
                let ghost prev = out@.map_values(|x: Vec<char>| x@);
                out.push(rest);
                assert(out@.map_values(|x: Vec<char>| x@) =~= prev + split_char(s@, c).skip(prev.len() as int));
                return out;
            },
        }
    }
    out
}

/// The three numbers of a version, or why there are not.
pub enum VersionNumbers {
    WrongShape,
    Bad(VersionPart, ParseFailure),
    Good(u64, u64, u64),
}

/// Reads `MAJOR.MINOR.PATCH` from the part of the version before any `-`;
/// the first part that does not parse is the one reported.
pub open spec fn version_numbers(v: Seq<char>) -> VersionNumbers {
    let parts = split_char(core_of(v), '.');
    if parts.len() != 3 {
        VersionNumbers::WrongShape
    } else {
        match parse_u64(parts[0]) {
            Err(e) => VersionNumbers::Bad(VersionPart::Major, e),
            Ok(a) => match parse_u64(parts[1]) {
                Err(e) => VersionNumbers::Bad(VersionPart::Minor, e),
                Ok(b) => match parse_u64(parts[2]) {
                    Err(e) => VersionNumbers::Bad(VersionPart::Patch, e),
                    Ok(c) => VersionNumbers::Good(a, b, c),
                },
            },
        }
    }
}

/// Model of a kind of bump.
pub enum BumpKindView {
    Patch,
    Minor,
    Major,
    Pre(Seq<char>),
}

impl View for BumpKind {
    type V = BumpKindView;

    open spec fn view(&self) -> BumpKindView {
        match self {
            BumpKind::Patch => BumpKindView::Patch,
            BumpKind::Minor => BumpKindView::Minor,
            BumpKind::Major => BumpKindView::Major,
            BumpKind::Pre(id) => BumpKindView::Pre(id@),
        }
    }
}

/// `a.b.c` in decimal.
pub open spec fn dotted(a: nat, b: nat, c: nat) -> Seq<char> {
    decimal(a) + seq!['.'] + decimal(b) + seq!['.'] + decimal(c)
}

/// The next version: a patch bump adds one to the patch number; a minor bump
/// adds one to the minor number and zeroes the patch; a major bump adds one to
/// the major number and zeroes the others; a pre-release keeps the numbers
/// and appends `-` and its identifier. Any pre-release of the current version
/// is dropped, and the numbers are written in plain decimal.
pub open spec fn bumped(a: u64, b: u64, c: u64, kind: BumpKindView) -> Seq<char> {
    match kind {
        BumpKindView::Patch => dotted(a as nat, b as nat, (c + 1) as nat),
        BumpKindView::Minor => dotted(a as nat, (b + 1) as nat, 0),
        BumpKindView::Major => dotted((a + 1) as nat, 0, 0),
        BumpKindView::Pre(id) => dotted(a as nat, b as nat, c as nat) + seq!['-'] + id,
    }
}

/// The number that the bump adds one to stays within `u64`.
pub open spec fn bump_fits(v: Seq<char>, kind: BumpKindView) -> bool {
    match version_numbers(v) {
        VersionNumbers::Good(a, b, c) => match kind {
            BumpKindView::Patch => c < u64::MAX,
            BumpKindView::Minor => b < u64::MAX,
            BumpKindView::Major => a < u64::MAX,
            BumpKindView::Pre(_) => true,
        },
        _ => true,
    }
}

/// What bumping `current` gives: the bumped version (see `bumped`), or the
/// error for a version that is not three numbers, or for the first part that
/// is not a number.
pub open spec fn bump_outcome(current: Seq<char>, kind: BumpKindView, r: Result<String, VersionError>) -> bool {
    match version_numbers(current) {
        VersionNumbers::WrongShape => r matches Err(VersionError::NotMajorMinorPatch { version })
            && version@ == current,
        VersionNumbers::Bad(part, reason) => r == Err::<String, VersionError>(
            VersionError::BadNumber { part, reason },
        ),
        VersionNumbers::Good(a, b, c) => r matches Ok(s) && s@ == bumped(a, b, c, kind),
    }
}

/// Reads the three numbers of a version (see `version_numbers`).
pub fn version_numbers_exec(current: &str) -> (r: VersionNumbers)
    ensures
        r == version_numbers(current@),
{
    let cs = chars_of(current);
    let mut dash: Vec<char> = Vec::new();
    dash.push('-');
    assert(dash@ =~= seq!['-']);
    let core = match find_chars(cs.as_slice(), dash.as_slice()) {
        Some(i) => {
            proof {
                lemma_find_from_bound(cs@, seq!['-'], 0);
            }
            slice_chars(cs.as_slice(), 0, i)
        },
        None => slice_chars(cs.as_slice(), 0, cs.len()),
    };
    assert(cs@.subrange(0, cs@.len() as int) =~= cs@);
    assert(core@ =~= core_of(current@));
    let parts = split_char_exec(core.as_slice(), '.');
    assert(parts@.map_values(|x: Vec<char>| x@).len() == parts.len());
    if parts.len() != 3 {
        return VersionNumbers::WrongShape;
    }
    assert(parts@.map_values(|x: Vec<char>| x@)[0] == parts@[0]@);
    assert(parts@.map_values(|x: Vec<char>| x@)[1] == parts@[1]@);
    assert(parts@.map_values(|x: Vec<char>| x@)[2] == parts@[2]@);
    let major = match parse_u64_exec(parts[0].as_slice()) {
        Ok(v) => v,
        Err(e) => {
            return VersionNumbers::Bad(VersionPart::Major, e);
        },
    };
    let minor = match parse_u64_exec(parts[1].as_slice()) {
        Ok(v) => v,
        Err(e) => {
            return VersionNumbers::Bad(VersionPart::Minor, e);
        },
    };
    let patch = match parse_u64_exec(parts[2].as_slice()) {
        Ok(v) => v,
        Err(e) => {
            return VersionNumbers::Bad(VersionPart::Patch, e);
        },
    };
    VersionNumbers::Good(major, minor, patch)
}

/// Whether `semver_bump` can be asked for this bump: the number that it adds
/// one to is below `u64::MAX`.
pub fn bump_fits_check(current: &str, kind: &BumpKind) -> (r: bool)
    ensures
        r == bump_fits(current@, kind@),
{
    match version_numbers_exec(current) {
        VersionNumbers::Good(a, b, c) => match kind {
            BumpKind::Patch => c < u64::MAX,
            BumpKind::Minor => b < u64::MAX,
            BumpKind::Major => a < u64::MAX,
            BumpKind::Pre(_) => true,
        },
        _ => true,
    }
}

/// The version after the bump (see `bump_outcome`).
pub fn semver_bump(current: &str, kind: BumpKind) -> (r: Result<String, VersionError>)
    requires
        bump_fits(current@, kind@),
    ensures
        bump_outcome(current@, kind@, r),
{
    let (major, minor, patch) = match version_numbers_exec(current) {
        VersionNumbers::WrongShape => {
            return Err(VersionError::NotMajorMinorPatch { version: current.to_owned() });
        },
        VersionNumbers::Bad(part, reason) => {
            return Err(VersionError::BadNumber { part, reason });
        },
        VersionNumbers::Good(a, b, c) => (a, b, c),
    };
    let (a, b, c) = match &kind {
        BumpKind::Patch => (major, minor, patch + 1),
        BumpKind::Minor => (major, minor + 1, 0),
        BumpKind::Major => (major + 1, 0, 0),
        BumpKind::Pre(_) => (major, minor, patch),
    };
    let mut out: Vec<char> = Vec::new();
    push_decimal(a, &mut out);
    out.push('.');
    push_decimal(b, &mut out);
    out.push('.');
    push_decimal(c, &mut out);
    assert(out@ =~= dotted(a as nat, b as nat, c as nat));
    match &kind {
        BumpKind::Pre(id) => {
            out.push('-');
            let idc = chars_of(id.as_str());
            let mut i: usize = 0;
            let ghost base = out@;
            while i < idc.len()
                invariant
                    i <= idc.len(),
                    out@ == base + idc@.take(i as int),
                decreases idc.len() - i,
            {
                out.push(idc[i]);
                i = i + 1;
                assert(out@ =~= base + idc@.take(i as int));
            }
            assert(idc@.take(i as int) =~= idc@);
        },
        _ => {},
    }
    assert(out@ =~= bumped(major, minor, patch, kind@));
    Ok(string_from_chars(out.as_slice()))
}


/// The `[workspace.package]` block: from where it starts to the next line
/// that opens a table (or to the end).
pub open spec fn package_block(text: Seq<char>, start: int) -> Seq<char> {
    let rest = text.skip(start);
    match find_seq(rest, "\n["@) {
        Some(i) => rest.take(i),
        None => rest,
    }
}

/// The value after `version`: what follows the first `=`, trimmed of white
/// space, then of double quotes, then of single quotes (nothing without `=`).
pub open spec fn version_value(rest: Seq<char>) -> Seq<char> {
    let after_eq = match find_seq(rest, "="@) {
        Some(i) => trim(rest.skip(i + 1)),
        None => Seq::empty(),
    };
    trim_char(trim_char(after_eq, '"'), '\'')
}

/// The value of the first line that starts with `version` once its leading
/// white space is dropped.
pub open spec fn first_version(ls: Seq<Seq<char>>) -> Option<Seq<char>>
    decreases ls.len(),
{
    if ls.len() == 0 {
        None
    } else {
        match strip_prefix(trim_start(ls[0]), "version"@) {
            Some(rest) => Some(version_value(rest)),
            None => first_version(ls.drop_first()),
        }
    }
}

/// The version that `read_workspace_version` reads from a text, if any.
pub open spec fn read_text(text: Seq<char>) -> Option<Seq<char>> {
    match find_seq(text, "[workspace.package]"@) {
        None => None,
        Some(start) => first_version(lines(package_block(text, start))),
    }
}

/// The text that `write_workspace_version` gives, if it gives one.
pub open spec fn written_text(text: Seq<char>, v: Seq<char>) -> Option<Seq<char>> {
    match find_seq(text, "[workspace.package]"@) {
        None => None,
        Some(start) => {
            let block = package_block(text, start);
            let ps = split_incl(block, '\n');
            match version_line(lines(block)) {
                None => None,
                Some(i) => Some(text.take(start) + ps.update(i, version_piece(ps[i], v)).flatten() + text.skip(
                    start + block.len(),
                )),
            }
        },
    }
}

/// Reads the workspace version from the text of `Cargo.toml`: the first
/// `version` key of the `[workspace.package]` block.
pub fn read_workspace_version(text: &str) -> (r: Result<String, VersionError>)
    ensures
        match r {
            Ok(s) => read_text(text@) == Some(s@),
            Err(_) => read_text(text@) is None,
        },
        match find_seq(text@, "[workspace.package]"@) {
            None => r == Err::<String, VersionError>(VersionError::NoPackageBlock),
            Some(start) => match first_version(lines(package_block(text@, start))) {
                Some(v) => r matches Ok(s) && s@ == v,
                None => r == Err::<String, VersionError>(VersionError::NoVersionKey),
            },
        },
{
    let t = chars_of(text);
    let hdr = chars_of("[workspace.package]");
    let start = match find_chars(t.as_slice(), hdr.as_slice()) {
        Some(i) => i,
        None => {
            return Err(VersionError::NoPackageBlock);
        },
    };
    proof {
        lemma_find_from_bound(t@, hdr@, 0);
    }
    let rest = slice_chars(t.as_slice(), start, t.len());
    assert(rest@ =~= t@.skip(start as int));
    let nl = chars_of("\n[");
    let block = match find_chars(rest.as_slice(), nl.as_slice()) {
        Some(i) => {
            proof {
                lemma_find_from_bound(rest@, nl@, 0);
            }
            slice_chars(rest.as_slice(), 0, i)
        },
        None => slice_chars(rest.as_slice(), 0, rest.len()),
    };
    assert(block@ =~= package_block(t@, start as int));
    let pieces = split_incl_exec(block.as_slice(), '\n');
    let ghost ls = lines(block@);
    let key = chars_of("version");
    let mut i: usize = 0;
    assert(ls.skip(0) =~= ls);
    while i < pieces.len()
        invariant
            i <= pieces.len(),
            ls == lines(block@),
            ls.len() == pieces.len(),
            pieces@.map_values(|x: Vec<char>| x@) == split_incl(block@, '\n'),
            key@ == "version"@,
            first_version(ls) == first_version(ls.skip(i as int)),
            find_seq(text@, "[workspace.package]"@) == Some(start as int),
            block@ == package_block(text@, start as int),
        decreases pieces.len() - i,
    {
        assert(pieces@.map_values(|x: Vec<char>| x@)[i as int] == pieces@[i as int]@);
        let line = line_of_exec(pieces[i].as_slice());
        assert(line@ == ls[i as int]);
        let trimmed = trim_start_exec(line.as_slice());
        assert(ls.skip(i as int)[0] == ls[i as int]);
        match strip_prefix_exec(trimmed.as_slice(), key.as_slice()) {
            Some(rest) => {
                let eq = chars_of("=");
                proof {
                    reveal_strlit("=");
                }
                let after_eq = match find_chars(rest.as_slice(), eq.as_slice()) {
                    Some(j) => {
                        proof {
                            lemma_find_from_bound(rest@, eq@, 0);
                        }
                        let tail = slice_chars(rest.as_slice(), j + 1, rest.len());
                        assert(tail@ =~= rest@.skip(j + 1));
                        trim_exec(tail.as_slice())
                    },
                    None => Vec::new(),
                };
                let v1 = trim_char_exec(after_eq.as_slice(), '"');
                let v2 = trim_char_exec(v1.as_slice(), '\'');
                assert(after_eq@ == (match find_seq(rest@, "="@) {
                    Some(j) => trim(rest@.skip(j + 1)),
                    None => Seq::<char>::empty(),
                }));
                assert(v2@ == version_value(rest@));
                assert(first_version(ls.skip(i as int)) == Some(version_value(rest@)));
                return Ok(string_from_chars(v2.as_slice()));
            },
            None => {
                assert(ls.skip(i as int).drop_first() =~= ls.skip(i + 1));
            },
        }
        i = i + 1;
    }
    assert(ls.skip(i as int).len() == 0);
    Err(VersionError::NoVersionKey)
}

/// The position of the first line that starts with `version` once its
/// leading white space is dropped: the line `first_version` reads.
pub open spec fn version_line(ls: Seq<Seq<char>>) -> Option<int>
    decreases ls.len(),
{
    if ls.len() == 0 {
        None
    } else if strip_prefix(trim_start(ls[0]), "version"@) is Some {
        Some(0)
    } else {
        match version_line(ls.drop_first()) {
            Some(i) => Some(i + 1),
            None => None,
        }
    }
}

proof fn lemma_version_line_first(ls: Seq<Seq<char>>, i: int)
    requires
        0 <= i <= ls.len(),
        forall|j: int| 0 <= j < i ==> strip_prefix(trim_start(#[trigger] ls[j]), "version"@) is None,
    ensures
        i < ls.len() && strip_prefix(trim_start(ls[i]), "version"@) is Some ==> version_line(ls) == Some(i),
        i == ls.len() ==> version_line(ls) is None,
    decreases i,
{
    if i > 0 {
        let t = ls.drop_first();
        assert forall|j: int| 0 <= j < i - 1 implies strip_prefix(trim_start(#[trigger] t[j]), "version"@) is None by {
            assert(t[j] == ls[j + 1]);
        }
        lemma_version_line_first(t, i - 1);
        assert(strip_prefix(trim_start(ls[0]), "version"@) is None);
    }
}

proof fn lemma_trim_start_len(s: Seq<char>)
    ensures
        trim_start(s).len() <= s.len(),
    decreases s.len(),
{
    if s.len() > 0 {
        lemma_trim_start_len(s.drop_first());
    }
}

/// A piece of the block (a line with its line break) with the line set to
/// `version = "<v>"`: the line's indentation stays, and so does a `\n` that
/// ends it (a `\r` before it goes with the old text).
pub open spec fn version_piece(piece: Seq<char>, v: Seq<char>) -> Seq<char> {
    let line = line_of(piece);
    line.take(line.len() - trim_start(line).len()) + "version = \""@ + v + "\""@ + (if piece.len() > 0
        && piece.last() == '\n' {
        seq!['\n']
    } else {
        Seq::<char>::empty()
    })
}

/// The text of `Cargo.toml` with the version line of `[workspace.package]`
/// (the line `read_workspace_version` reads) set to `version = "<version>"`;
/// the rest of the text stays as it is.
pub fn write_workspace_version(text: &str, version: &str) -> (r: Result<String, VersionError>)
    ensures
        match r {
            Ok(s) => written_text(text@, version@) == Some(s@),
            Err(_) => written_text(text@, version@) is None,
        },
        match find_seq(text@, "[workspace.package]"@) {
            None => r == Err::<String, VersionError>(VersionError::NoPackageBlock),
            Some(start) => {
                let block = package_block(text@, start);
                let ps = split_incl(block, '\n');
                match version_line(lines(block)) {
                    None => r == Err::<String, VersionError>(VersionError::NoVersionLine),
                    Some(i) => r matches Ok(s) && s@ == text@.take(start) + ps.update(
                        i,
                        version_piece(ps[i], version@),
                    ).flatten() + text@.skip(start + block.len()),
                }
            },
        },
{
    let t = chars_of(text);
    let hdr = chars_of("[workspace.package]");
    let start = match find_chars(t.as_slice(), hdr.as_slice()) {
        Some(i) => i,
        None => {
            return Err(VersionError::NoPackageBlock);
        },
    };
    proof {
        lemma_find_from_bound(t@, hdr@, 0);
    }
    let rest = slice_chars(t.as_slice(), start, t.len());
    assert(rest@ =~= t@.skip(start as int));
    let nl = chars_of("\n[");
    let block = match find_chars(rest.as_slice(), nl.as_slice()) {
        Some(i) => {
            proof {
                lemma_find_from_bound(rest@, nl@, 0);
            }
            slice_chars(rest.as_slice(), 0, i)
        },
        None => slice_chars(rest.as_slice(), 0, rest.len()),
    };
    assert(block@ =~= package_block(t@, start as int));
    let pieces = split_incl_exec(block.as_slice(), '\n');
    let ghost ps = split_incl(block@, '\n');
    let ghost ls = lines(block@);
    assert(pieces@.map_values(|x: Vec<char>| x@) == ps);
    let key = chars_of("version");
    let mut i: usize = 0;
    let mut found = false;
    proof {
        if pieces.len() == 0 {
            lemma_version_line_first(ls, 0);
        }
    }
    while i < pieces.len()
        invariant_except_break
            forall|j: int| 0 <= j < i ==> strip_prefix(trim_start(#[trigger] ls[j]), "version"@) is None,
            !found,
            i == pieces.len() ==> version_line(ls) is None,
        invariant
            i <= pieces.len(),
            ls == lines(block@),
            ps == split_incl(block@, '\n'),
            ls.len() == pieces.len(),
            pieces@.map_values(|x: Vec<char>| x@) == ps,
            key@ == "version"@,
        ensures
            found ==> i < pieces.len() && version_line(ls) == Some(i as int),
            !found ==> version_line(ls) is None,
        decreases pieces.len() - i,
    {
        assert(pieces@.map_values(|x: Vec<char>| x@)[i as int] == pieces@[i as int]@);
        let line = line_of_exec(pieces[i].as_slice());
        assert(line@ == ls[i as int]);
        let trimmed = trim_start_exec(line.as_slice());
        if strip_prefix_exec(trimmed.as_slice(), key.as_slice()).is_some() {
            proof {
                lemma_version_line_first(ls, i as int);
            }
            found = true;
            break;
        }
        i = i + 1;
        proof {
            if i == pieces.len() {
                lemma_version_line_first(ls, i as int);
            }
        }
    }
    if !found {
        return Err(VersionError::NoVersionLine);
    }
    // The new piece: the line's indentation, the new line, the line break.
    let piece = pieces[i].as_slice();
    assert(pieces@.map_values(|x: Vec<char>| x@)[i as int] == pieces@[i as int]@);
    let line = line_of_exec(piece);
    let trimmed = trim_start_exec(line.as_slice());
    proof {
        lemma_trim_start_len(line@);
    }
    let mut np = slice_chars(line.as_slice(), 0, line.len() - trimmed.len());
    push_all(&mut np, chars_of("version = \"").as_slice());
    push_all(&mut np, chars_of(version).as_slice());
    push_all(&mut np, chars_of("\"").as_slice());
    if piece.len() > 0 && piece[piece.len() - 1] == '\n' {
        np.push('\n');
    }
    assert(np@ =~= version_piece(ps[i as int], version@));
    let ghost ps2 = ps.update(i as int, version_piece(ps[i as int], version@));
    // The text before the block, the pieces with the new one, the text after.
    let mut out = slice_chars(t.as_slice(), 0, start);
    assert(out@ =~= t@.take(start as int) + ps2.take(0).flatten_alt());
    let mut j: usize = 0;
    while j < pieces.len()
        invariant
            j <= pieces.len(),
            i < pieces.len(),
            ps2.len() == pieces.len(),
            pieces@.map_values(|x: Vec<char>| x@) == ps,
            ps2 == ps.update(i as int, np@),
            out@ == t@.take(start as int) + ps2.take(j as int).flatten_alt(),
        decreases pieces.len() - j,
    {
        assert(ps2.take(j + 1).drop_last() =~= ps2.take(j as int));
        if j == i {
            push_all(&mut out, np.as_slice());
        } else {
            assert(pieces@.map_values(|x: Vec<char>| x@)[j as int] == pieces@[j as int]@);
            push_all(&mut out, pieces[j].as_slice());
        }
        j = j + 1;
        assert(out@ =~= t@.take(start as int) + ps2.take(j as int).flatten_alt());
    }
    assert(ps2.take(j as int) =~= ps2);
    proof {
        ps2.lemma_flatten_and_flatten_alt_are_equivalent();
    }
    let after = start + block.len();
    let tail = slice_chars(t.as_slice(), after, t.len());
    assert(tail@ =~= t@.skip(after as int));
    push_all(&mut out, tail.as_slice());
    Ok(string_from_chars(out.as_slice()))
}

/// A dependency line of the workspace block to rewrite: a path dependency
/// on a crate of the workspace pinned to the previous version.
pub open spec fn pinned_line(line: Seq<char>, needle: Seq<char>) -> bool {
    contains_seq(line, "path = \"crates/"@) && contains_seq(line, needle)
}

/// The pieces of the block, each pinned line with the pin replaced.
pub open spec fn rewrite_pins(pieces: Seq<Seq<char>>, needle: Seq<char>, rep: Seq<char>) -> Seq<char>
    decreases pieces.len(),
{
    if pieces.len() == 0 {
        Seq::empty()
    } else {
        let line = pieces.last();
        rewrite_pins(pieces.drop_last(), needle, rep) + (if pinned_line(line, needle) {
            replace_all(line, needle, rep)
        } else {
            line
        })
    }
}

/// The text of `Cargo.toml` with the `version = "<prev>"` pins of the
/// workspace's own path dependencies in `[workspace.dependencies]` set to
/// `<next>`; `None` when there is no such block (the file stays as it is).
pub fn write_workspace_deps_versions(text: &str, prev: &str, next: &str) -> (r: Option<String>)
    ensures
        match find_seq(text@, "[workspace.dependencies]"@) {
            None => r is None,
            Some(start) => {
                let body = start + "[workspace.dependencies]"@.len();
                let after = text@.skip(body);
                let block_len = match find_seq(after, "\n["@) {
                    Some(i) => i + 1,
                    None => after.len() as int,
                };
                let block = text@.subrange(start, body + block_len);
                let needle = "version = \""@ + prev@ + "\""@;
                let rep = "version = \""@ + next@ + "\""@;
                r matches Some(s) && s@ == text@.take(start) + rewrite_pins(split_incl(block, '\n'), needle, rep)
                    + text@.skip(body + block_len)
            },
        },
{
    let t = chars_of(text);
    let hdr = chars_of("[workspace.dependencies]");
    let start = match find_chars(t.as_slice(), hdr.as_slice()) {
        Some(i) => i,
        None => {
            return None;
        },
    };
    proof {
        lemma_find_from_bound(t@, hdr@, 0);
    }
    assert(start + hdr@.len() <= t@.len());
    assert(start + hdr.len() <= t.len());
    let body = start + hdr.len();
    let after = slice_chars(t.as_slice(), body, t.len());
    assert(after@ =~= t@.skip(body as int));
    let nl = chars_of("\n[");
    proof {
        reveal_strlit("\n[");
    }
    let block_len = match find_chars(after.as_slice(), nl.as_slice()) {
        Some(i) => {
            proof {
                lemma_find_from_bound(after@, nl@, 0);
            }
            i + 1
        },
        None => after.len(),
    };
    let block = slice_chars(t.as_slice(), start, body + block_len);
    let mut needle = chars_of("version = \"");
    push_all(&mut needle, chars_of(prev).as_slice());
    push_all(&mut needle, chars_of("\"").as_slice());
    let mut rep = chars_of("version = \"");
    push_all(&mut rep, chars_of(next).as_slice());
    push_all(&mut rep, chars_of("\"").as_slice());
    let marker = chars_of("path = \"crates/");
    proof {
        reveal_strlit("version = \"");
    }
    assert(needle@.len() > 0);
    let pieces = split_incl_exec(block.as_slice(), '\n');
    let ghost ps = split_incl(block@, '\n');
    let mut out = slice_chars(t.as_slice(), 0, start);
    let ghost head = out@;
    assert(head =~= t@.take(start as int));
    let mut i: usize = 0;
    assert(ps.take(0).len() == 0);
    assert(out@ =~= head + rewrite_pins(ps.take(0), needle@, rep@));
    while i < pieces.len()
        invariant
            i <= pieces.len(),
            ps == split_incl(block@, '\n'),
            pieces@.map_values(|x: Vec<char>| x@) == ps,
            ps.len() == pieces.len(),
            needle@.len() > 0,
            marker@ == "path = \"crates/"@,
            out@ == head + rewrite_pins(ps.take(i as int), needle@, rep@),
        decreases pieces.len() - i,
    {
        let line = &pieces[i];
        assert(ps[i as int] == line@);
        let pinned = find_chars(line.as_slice(), marker.as_slice()).is_some() && find_chars(
            line.as_slice(),
            needle.as_slice(),
        ).is_some();
        if pinned {
            let replaced = replace_all_exec(line.as_slice(), needle.as_slice(), rep.as_slice());
            push_all(&mut out, replaced.as_slice());
        } else {
            push_all(&mut out, line.as_slice());
        }
        assert(ps.take(i + 1).drop_last() =~= ps.take(i as int));
        i = i + 1;
    }
    assert(ps.take(i as int) =~= ps);
    let tail = slice_chars(t.as_slice(), body + block_len, t.len());
    assert(tail@ =~= t@.skip(body + block_len));
    push_all(&mut out, tail.as_slice());
    Some(string_from_chars(out.as_slice()))
}

/// The lines of `pyproject.toml`, each ended by `\n`, with the first line
/// that starts (after white space) with `version` and holds `=` set to
/// `version = "<version>"`; also tells whether there was one.
pub open spec fn rewrite_pyproject(ls: Seq<Seq<char>>, version: Seq<char>) -> (Seq<char>, bool)
    decreases ls.len(),
{
    if ls.len() == 0 {
        (Seq::empty(), false)
    } else {
        let r = rewrite_pyproject(ls.drop_last(), version);
        let line = ls.last();
        let trimmed = trim_start(line);
        if !r.1 && strip_prefix(trimmed, "version"@) is Some && contains_seq(trimmed, "="@) {
            (r.0 + "version = \""@ + version + "\"\n"@, true)
        } else {
            (r.0 + line + "\n"@, r.1)
        }
    }
}

/// The text of `pyproject.toml` with its version line set (see
/// `rewrite_pyproject`); an error when it has none.
pub fn write_pyproject_version(text: &str, version: &str) -> (r: Result<String, VersionError>)
    ensures
        ({
            let w = rewrite_pyproject(lines(text@), version@);
            if w.1 {
                r matches Ok(s) && s@ == w.0
            } else {
                r == Err::<String, VersionError>(VersionError::NoPyprojectVersion)
            }
        }),
{
    let t = chars_of(text);
    let pieces = split_incl_exec(t.as_slice(), '\n');
    let ghost ls = lines(t@);
    let key = chars_of("version");
    let eq = chars_of("=");
    let v = chars_of(version);
    let mut out: Vec<char> = Vec::new();
    let mut replaced = false;
    let mut i: usize = 0;
    assert(ls.take(0).len() == 0);
    while i < pieces.len()
        invariant
            i <= pieces.len(),
            ls == lines(t@),
            ls.len() == pieces.len(),
            pieces@.map_values(|x: Vec<char>| x@) == split_incl(t@, '\n'),
            key@ == "version"@,
            eq@ == "="@,
            v@ == version@,
            (out@, replaced) == rewrite_pyproject(ls.take(i as int), version@),
        decreases pieces.len() - i,
    {
        assert(pieces@.map_values(|x: Vec<char>| x@)[i as int] == pieces@[i as int]@);
        let line = line_of_exec(pieces[i].as_slice());
        assert(line@ == ls[i as int]);
        let trimmed = trim_start_exec(line.as_slice());
        let starts = strip_prefix_exec(trimmed.as_slice(), key.as_slice()).is_some();
        let has_eq = find_chars(trimmed.as_slice(), eq.as_slice()).is_some();
        assert(ls.take(i + 1).drop_last() =~= ls.take(i as int));
        if !replaced && starts && has_eq {
            push_all(&mut out, chars_of("version = \"").as_slice());
            push_all(&mut out, v.as_slice());
            push_all(&mut out, chars_of("\"\n").as_slice());
            replaced = true;
        } else {
            push_all(&mut out, line.as_slice());
            push_all(&mut out, chars_of("\n").as_slice());
        }
        i = i + 1;
    }
    assert(ls.take(i as int) =~= ls);
    if !replaced {
        return Err(VersionError::NoPyprojectVersion);
    }
    Ok(string_from_chars(out.as_slice()))
}


/// What the arguments of `bump` ask for.
pub enum BumpRequest {
    Missing,
    Kind(BumpKindView),
    PreMissing,
    SetTo(Seq<char>),
    SetMissing,
    Unknown(Seq<char>),
}

/// Reads the arguments of `bump`: `patch`, `minor`, `major`, `--pre <id>` or
/// `--set <version>`.
pub open spec fn bump_request(args: Seq<Seq<char>>) -> BumpRequest {
    if args.len() == 0 {
        BumpRequest::Missing
    } else if args[0] == "patch"@ {
        BumpRequest::Kind(BumpKindView::Patch)
    } else if args[0] == "minor"@ {
        BumpRequest::Kind(BumpKindView::Minor)
    } else if args[0] == "major"@ {
        BumpRequest::Kind(BumpKindView::Major)
    } else if args[0] == "--pre"@ {
        if args.len() < 2 {
            BumpRequest::PreMissing
        } else {
            BumpRequest::Kind(BumpKindView::Pre(args[1]))
        }
    } else if args[0] == "--set"@ {
        if args.len() < 2 {
            BumpRequest::SetMissing
        } else {
            BumpRequest::SetTo(args[1])
        }
    } else {
        BumpRequest::Unknown(args[0])
    }
}

pub open spec fn strings_view(args: Seq<String>) -> Seq<Seq<char>> {
    args.map_values(|a: String| a@)
}

fn is_word(a: &String, w: &str) -> (r: bool)
    ensures
        r == (a@ == w@),
{
    let x = chars_of(a.as_str());
    let y = chars_of(w);
    crate::text::chars_eq(x.as_slice(), y.as_slice())
}

/// The version that `bump` with these arguments moves to from `current`.
pub fn bump_target(args: &Vec<String>, current: &str) -> (r: Result<String, VersionError>)
    requires
        bump_request(strings_view(args@)) matches BumpRequest::Kind(k) ==> bump_fits(current@, k),
    ensures
        match bump_request(strings_view(args@)) {
            BumpRequest::Missing => r == Err::<String, VersionError>(VersionError::MissingBumpArg),
            BumpRequest::Kind(k) => bump_outcome(current@, k, r),
            BumpRequest::PreMissing => r == Err::<String, VersionError>(VersionError::PreNeedsId),
            BumpRequest::SetTo(v) => r matches Ok(s) && s@ == v,
            BumpRequest::SetMissing => r == Err::<String, VersionError>(VersionError::SetNeedsVersion),
            BumpRequest::Unknown(a) => r matches Err(VersionError::UnknownBumpArg { arg }) && arg@ == a,
        },
{
    let ghost av = strings_view(args@);
    if args.len() == 0 {
        return Err(VersionError::MissingBumpArg);
    }
    assert(av[0] == args@[0]@);
    let a = &args[0];
    if is_word(a, "patch") {
        return semver_bump(current, BumpKind::Patch);
    }
    if is_word(a, "minor") {
        return semver_bump(current, BumpKind::Minor);
    }
    if is_word(a, "major") {
        return semver_bump(current, BumpKind::Major);
    }
    if is_word(a, "--pre") {
        if args.len() < 2 {
            return Err(VersionError::PreNeedsId);
        }
        assert(av[1] == args@[1]@);
        return semver_bump(current, BumpKind::Pre(args[1].clone()));
    }
    if is_word(a, "--set") {
        if args.len() < 2 {
            return Err(VersionError::SetNeedsVersion);
        }
        assert(av[1] == args@[1]@);
        return Ok(args[1].clone());
    }
    Err(VersionError::UnknownBumpArg { arg: a.clone() })
}

/// Whether `bump_target` can be asked with these arguments: where they ask
/// for a bump by kind, that bump fits (see `bump_fits`).
pub fn bump_args_fit(args: &Vec<String>, current: &str) -> (r: bool)
    ensures
        r == (bump_request(strings_view(args@)) matches BumpRequest::Kind(k) ==> bump_fits(current@, k)),
{
    let ghost av = strings_view(args@);
    if args.len() == 0 {
        return true;
    }
    assert(av[0] == args@[0]@);
    let a = &args[0];
    if is_word(a, "patch") {
        return bump_fits_check(current, &BumpKind::Patch);
    }
    if is_word(a, "minor") {
        return bump_fits_check(current, &BumpKind::Minor);
    }
    if is_word(a, "major") {
        return bump_fits_check(current, &BumpKind::Major);
    }
    if is_word(a, "--pre") {
        if args.len() < 2 {
            return true;
        }
        assert(av[1] == args@[1]@);
        return bump_fits_check(current, &BumpKind::Pre(args[1].clone()));
    }
    true
}


proof fn lemma_decimal_digits(n: nat)
    ensures
        decimal(n).len() >= 1,
        forall|j: int| 0 <= j < decimal(n).len() ==> is_digit(#[trigger] decimal(n)[j]),
    decreases n,
{
    if n >= 10 {
        lemma_decimal_digits(n / 10);
        let d = decimal(n / 10);
        assert forall|j: int| 0 <= j < decimal(n).len() implies is_digit(#[trigger] decimal(n)[j]) by {
            if j < d.len() {
                assert(decimal(n)[j] == d[j]);
            }
        }
    }
}

proof fn lemma_parse_digits_push(s: Seq<char>, c: char, acc: int)
    requires
        0 <= acc <= u64::MAX,
        is_digit(c),
    ensures
        parse_digits(s.push(c), acc) == match parse_digits(s, acc) {
            Ok(x) => if x * 10 + (c as int - 48) > u64::MAX {
                Err(ParseFailure::PosOverflow)
            } else {
                Ok((x * 10 + (c as int - 48)) as u64)
            },
            Err(e) => Err(e),
        },
    decreases s.len(),
{
    let t = s.push(c);
    if s.len() == 0 {
        assert(t[0] == c);
        assert(t.drop_first().len() == 0);
        assert(parse_digits(s, acc) == Ok::<u64, ParseFailure>(acc as u64));
        let nx = acc * 10 + (c as int - 48);
        assert(parse_digits(t.drop_first(), nx) == Ok::<u64, ParseFailure>(nx as u64));
        assert((acc as u64) * 10 + (c as int - 48) == nx);
    } else {
        assert(t[0] == s[0]);
        assert(t.drop_first() =~= s.drop_first().push(c));
        if is_digit(s[0]) && acc * 10 + (s[0] as int - 48) <= u64::MAX {
            let nx = acc * 10 + (s[0] as int - 48);
            lemma_parse_digits_push(s.drop_first(), c, nx);
            assert(parse_digits(t, acc) == parse_digits(t.drop_first(), nx));
            assert(parse_digits(s, acc) == parse_digits(s.drop_first(), nx));
        }
    }
}

proof fn lemma_parse_decimal(n: u64)
    ensures
        parse_u64(decimal(n as nat)) == Ok::<u64, ParseFailure>(n),
    decreases n,
{
    lemma_parse_digits_decimal(n);
    lemma_decimal_digits(n as nat);
    assert(is_digit(decimal(n as nat)[0]));
}

proof fn lemma_parse_digits_decimal(n: u64)
    ensures
        parse_digits(decimal(n as nat), 0) == Ok::<u64, ParseFailure>(n),
    decreases n,
{
    if n < 10 {
        let d = decimal(n as nat);
        assert(d == seq![digit_char(n as int)]);
        assert(d.drop_first().len() == 0);
        assert(digit_char(n as int) as int == n + 48);
        assert(is_digit(d[0]));
        assert(parse_digits(d.drop_first(), n as int) == Ok::<u64, ParseFailure>(n));
        assert(parse_digits(d, 0) == parse_digits(d.drop_first(), 0 * 10 + (d[0] as int - 48)));
    } else {
        let m = (n / 10) as u64;
        lemma_parse_digits_decimal(m);
        let c = digit_char((n % 10) as int);
        assert(c as int == n % 10 + 48);
        assert(decimal(n as nat) == decimal(m as nat).push(c));
        lemma_parse_digits_push(decimal(m as nat), c, 0);
        assert(m * 10 + n % 10 == n) by (nonlinear_arith)
            requires
                m == n / 10,
        ;
        assert(is_digit(c));
        assert(parse_digits(decimal(m as nat).push(c), 0) == Ok::<u64, ParseFailure>(n));
    }
}

/// `dotted(a, b, c)` holds neither `-` nor any `.` but its two separators.
proof fn lemma_dotted_parts(a: u64, b: u64, c: u64)
    ensures
        forall|j: int| 0 <= j < dotted(a as nat, b as nat, c as nat).len() ==> #[trigger] dotted(
            a as nat,
            b as nat,
            c as nat,
        )[j] != '-',
        split_char(dotted(a as nat, b as nat, c as nat), '.') == seq![
            decimal(a as nat),
            decimal(b as nat),
            decimal(c as nat),
        ],
{
    let da = decimal(a as nat);
    let db = decimal(b as nat);
    let dc = decimal(c as nat);
    lemma_decimal_digits(a as nat);
    lemma_decimal_digits(b as nat);
    lemma_decimal_digits(c as nat);
    let s = dotted(a as nat, b as nat, c as nat);
    assert(s =~= da + seq!['.'] + (db + seq!['.'] + dc));
    let s1 = db + seq!['.'] + dc;
    assert forall|j: int| 0 <= j < s.len() implies #[trigger] s[j] != '-' by {
        if j < da.len() {
            assert(s[j] == da[j]);
        } else if j == da.len() {
        } else if j < da.len() + 1 + db.len() {
            assert(s[j] == db[j - da.len() - 1]);
        } else if j == da.len() + 1 + db.len() {
        } else {
            assert(s[j] == dc[j - da.len() - 2 - db.len()]);
        }
    }
    assert forall|j: int| 0 <= j < da.len() implies s[j] != '.' by {
        assert(s[j] == da[j]);
    }
    crate::text::lemma_find_single(s, '.', da.len() as int);
    assert(s.take(da.len() as int) =~= da);
    assert(s.skip(da.len() as int + 1) =~= s1);
    assert forall|j: int| 0 <= j < db.len() implies s1[j] != '.' by {
        assert(s1[j] == db[j]);
    }
    crate::text::lemma_find_single(s1, '.', db.len() as int);
    assert(s1.take(db.len() as int) =~= db);
    assert(s1.skip(db.len() as int + 1) =~= dc);
    assert forall|j: int| 0 <= j < dc.len() implies dc[j] != '.' by {}
    crate::text::lemma_find_single(dc, '.', dc.len() as int);
    assert(split_char(dc, '.') == seq![dc]);
    assert(split_char(s1, '.') =~= seq![db, dc]);
    assert(split_char(s, '.') =~= seq![da, db, dc]);
}

/// The numbers of `a.b.c`, and of `a.b.c-<id>`, are `a`, `b` and `c`.
proof fn lemma_version_numbers_of_dotted(a: u64, b: u64, c: u64, id: Seq<char>)
    ensures
        version_numbers(dotted(a as nat, b as nat, c as nat)) == VersionNumbers::Good(a, b, c),
        version_numbers(dotted(a as nat, b as nat, c as nat) + seq!['-'] + id) == VersionNumbers::Good(a, b, c),
        find_seq(dotted(a as nat, b as nat, c as nat), seq!['-']) is None,
{
    let s = dotted(a as nat, b as nat, c as nat);
    lemma_dotted_parts(a, b, c);
    crate::text::lemma_find_single(s, '-', s.len() as int);
    assert(core_of(s) == s);
    let t = s + seq!['-'] + id;
    assert forall|j: int| 0 <= j < s.len() implies t[j] != '-' by {
        assert(t[j] == s[j]);
    }
    crate::text::lemma_find_single(t, '-', s.len() as int);
    assert(core_of(t) =~= s);
    lemma_parse_decimal(a);
    lemma_parse_decimal(b);
    lemma_parse_decimal(c);
}

/// A numeric bump (patch, minor or major) that fits gives a version with no
/// pre-release part whose numbers are the old ones with the bumped number one
/// higher and the numbers below it zero, so it is greater than the old one;
/// and that version is accepted again by every later bump.
pub proof fn law_numeric_bump_grows(current: Seq<char>, kind: BumpKindView)
    requires
        version_numbers(current) is Good,
        !(kind is Pre),
        bump_fits(current, kind),
    ensures
        ({
            let (a, b, c) = match version_numbers(current) {
                VersionNumbers::Good(a, b, c) => (a, b, c),
                _ => (0u64, 0u64, 0u64),
            };
            let r = bumped(a, b, c, kind);
            &&& find_seq(r, seq!['-']) is None
            &&& version_numbers(r) == match kind {
                BumpKindView::Patch => VersionNumbers::Good(a, b, (c + 1) as u64),
                BumpKindView::Minor => VersionNumbers::Good(a, (b + 1) as u64, 0),
                _ => VersionNumbers::Good((a + 1) as u64, 0, 0),
            }
        }),
{
    let (a, b, c) = match version_numbers(current) {
        VersionNumbers::Good(a, b, c) => (a, b, c),
        _ => (0u64, 0u64, 0u64),
    };
    match kind {
        BumpKindView::Patch => lemma_version_numbers_of_dotted(a, b, (c + 1) as u64, Seq::empty()),
        BumpKindView::Minor => lemma_version_numbers_of_dotted(a, (b + 1) as u64, 0, Seq::empty()),
        _ => lemma_version_numbers_of_dotted((a + 1) as u64, 0, 0, Seq::empty()),
    }
}

/// Tagging a version as a pre-release keeps its numbers: tagging the result
/// again with the same identifier gives it back, and any later bump of the
/// result gives what the same bump of the untagged version gives.
pub proof fn law_pre_release_retag(current: Seq<char>, id: Seq<char>)
    requires
        version_numbers(current) is Good,
    ensures
        ({
            let (a, b, c) = match version_numbers(current) {
                VersionNumbers::Good(a, b, c) => (a, b, c),
                _ => (0u64, 0u64, 0u64),
            };
            let r = bumped(a, b, c, BumpKindView::Pre(id));
            &&& version_numbers(r) == version_numbers(current)
            &&& forall|x: Result<String, VersionError>| #[trigger] bump_outcome(r, BumpKindView::Pre(id), x) <==> (
                x matches Ok(s) && s@ == r)
            &&& forall|k: BumpKindView, x: Result<String, VersionError>| #[trigger] bump_outcome(r, k, x)
                <==> bump_outcome(current, k, x)
            &&& forall|k: BumpKindView| #[trigger] bump_fits(r, k) == bump_fits(current, k)
        }),
{
    let (a, b, c) = match version_numbers(current) {
        VersionNumbers::Good(a, b, c) => (a, b, c),
        _ => (0u64, 0u64, 0u64),
    };
    lemma_version_numbers_of_dotted(a, b, c, id);
}


proof fn lemma_first_version_at(ls: Seq<Seq<char>>)
    ensures
        match version_line(ls) {
            Some(i) => {
                &&& 0 <= i < ls.len()
                &&& strip_prefix(trim_start(ls[i]), "version"@) is Some
                &&& forall|j: int| 0 <= j < i ==> strip_prefix(trim_start(#[trigger] ls[j]), "version"@) is None
                &&& first_version(ls) == Some(version_value(strip_prefix(trim_start(ls[i]), "version"@)->0))
            },
            None => first_version(ls) is None,
        },
    decreases ls.len(),
{
    if ls.len() > 0 && strip_prefix(trim_start(ls[0]), "version"@) is None {
        let t = ls.drop_first();
        lemma_first_version_at(t);
        match version_line(t) {
            Some(i) => {
                assert(t[i] == ls[i + 1]);
                assert forall|j: int| 0 <= j < i + 1 implies strip_prefix(trim_start(#[trigger] ls[j]), "version"@) is None by {
                    if j > 0 {
                        assert(ls[j] == t[j - 1]);
                    }
                }
            },
            None => {},
        }
    }
}

/// The value read back from `version = "<v>"` after `version`.
proof fn lemma_version_value_of_written(v: Seq<char>)
    requires
        v.len() > 0 ==> v[0] != '"' && v[0] != '\'' && v.last() != '"' && v.last() != '\'',
    ensures
        version_value(seq![' ', '=', ' ', '"'] + v + seq!['"']) == v,
{
    let x = seq![' ', '=', ' ', '"'] + v + seq!['"'];
    reveal_strlit("=");
    assert("="@ == seq!['=']);
    assert(x[0] == ' ' && x[1] == '=');
    crate::text::lemma_find_single(x, '=', 1);
    let y = x.skip(2);
    assert(y =~= seq![' ', '"'] + v + seq!['"']);
    let z = seq!['"'] + v + seq!['"'];
    assert(y.drop_first() =~= z);
    assert(is_ws(' '));
    assert(!is_ws('"'));
    assert(trim_start(y) == trim_start(z));
    assert(z[0] == '"');
    assert(trim_start(z) == z);
    assert(z.last() == '"');
    assert(trim_end(z) == z);
    assert(trim(y) == z);
    // Dropping the quotes.
    let z1 = z.drop_first();
    assert(z1 =~= v + seq!['"']);
    if v.len() == 0 {
        assert(z1 =~= seq!['"']);
        assert(z1.drop_first().len() == 0);
        assert(strip_start_char(z1.drop_first(), '"') == z1.drop_first());
        assert(strip_start_char(z1, '"') == strip_start_char(z1.drop_first(), '"'));
        assert(strip_start_char(z, '"') == strip_start_char(z1, '"'));
        assert(strip_start_char(z, '"') =~= Seq::<char>::empty());
        assert(trim_char(z, '"') =~= v);
        assert(trim_char(v, '\'') == v);
    } else {
        assert(z1[0] == v[0]);
        assert(strip_start_char(z1, '"') == z1);
        assert(strip_start_char(z, '"') == strip_start_char(z1, '"'));
        assert(strip_start_char(z, '"') == z1);
        assert(z1.last() == '"');
        assert(z1.drop_last() =~= v);
        assert(strip_end_char(z1, '"') == strip_end_char(v, '"'));
        assert(strip_end_char(v, '"') == v);
        assert(strip_start_char(v, '\'') == v);
        assert(strip_end_char(v, '\'') == v);
    }
}

/// A piece of the block, with its line set to `version = "<v>"`, is again a
/// piece (a line break at most at its end, and there when the piece had
/// one), and its line reads as the version line with value `v`.
proof fn lemma_version_piece(p: Seq<char>, v: Seq<char>)
    requires
        p.len() > 0,
        forall|j: int| 0 <= j < p.len() - 1 ==> p[j] != '\n',
        forall|j: int| 0 <= j < v.len() ==> v[j] != '\n',
        v.len() > 0 ==> v[0] != '"' && v[0] != '\'' && v.last() != '"' && v.last() != '\'',
    ensures
        version_piece(p, v).len() > 0,
        forall|j: int| 0 <= j < version_piece(p, v).len() - 1 ==> version_piece(p, v)[j] != '\n',
        p.last() == '\n' ==> version_piece(p, v).last() == '\n',
        strip_prefix(trim_start(line_of(version_piece(p, v))), "version"@) is Some,
        version_value(strip_prefix(trim_start(line_of(version_piece(p, v))), "version"@)->0) == v,
{
    let line = line_of(p);
    crate::text::lemma_trim_start_shape(line);
    let m = line.len() - trim_start(line).len();
    let indent = line.take(m);
    reveal_strlit("version = \"");
    reveal_strlit("\"");
    reveal_strlit("version");
    let mid = "version = \""@ + v + "\""@;
    let l2 = indent + mid;
    let brk = if p.last() == '\n' { seq!['\n'] } else { Seq::<char>::empty() };
    assert(version_piece(p, v) == l2 + brk);
    assert(line.len() <= p.len());
    assert forall|j: int| 0 <= j < indent.len() implies indent[j] != '\n' && is_ws(#[trigger] indent[j]) by {
        assert(indent[j] == line[j]);
        assert(line[j] == p[j]);
    }
    assert("version = \""@ =~= seq!['v', 'e', 'r', 's', 'i', 'o', 'n', ' ', '=', ' ', '"']);
    assert("\""@ =~= seq!['"']);
    assert("version"@ =~= seq!['v', 'e', 'r', 's', 'i', 'o', 'n']);
    assert(mid.len() == 12 + v.len());
    assert(mid.last() == '"');
    assert forall|j: int| 0 <= j < mid.len() implies mid[j] != '\n' by {
        if 11 <= j < 11 + v.len() {
            assert(mid[j] == v[j - 11]);
        }
    }
    assert(l2.last() == '"');
    let np = l2 + brk;
    assert forall|j: int| 0 <= j < np.len() - 1 implies np[j] != '\n' by {
        if j < indent.len() {
            assert(np[j] == indent[j]);
        } else if j < l2.len() {
            assert(np[j] == mid[j - indent.len()]);
        } else {
            assert(np[j] == brk[j - l2.len()]);
        }
    }
    // Its line.
    if brk.len() == 0 {
        assert(np =~= l2);
    } else {
        assert(np.drop_last() =~= l2);
    }
    assert(line_of(np) == l2);
    assert(mid[0] == 'v');
    assert(!is_ws('v'));
    crate::text::lemma_trim_start_after_ws(indent, mid);
    assert(mid.subrange(0, 7) =~= "version"@);
    let after = seq![' ', '=', ' ', '"'] + v + seq!['"'];
    assert(mid.skip(7) =~= after);
    lemma_version_value_of_written(v);
}

/// Reading the version back from a block that `write_workspace_version`
/// rewrote gives the version written, when it holds no line break and does
/// not start or end with a quote.
pub proof fn law_written_version_reads_back(block: Seq<char>, v: Seq<char>)
    requires
        version_line(lines(block)) is Some,
        forall|j: int| 0 <= j < v.len() ==> v[j] != '\n',
        v.len() > 0 ==> v[0] != '"' && v[0] != '\'' && v.last() != '"' && v.last() != '\'',
    ensures
        ({
            let ps = split_incl(block, '\n');
            let i = version_line(lines(block))->0;
            first_version(lines(ps.update(i, version_piece(ps[i], v)).flatten())) == Some(v)
        }),
{
    let ps = split_incl(block, '\n');
    let ls = lines(block);
    crate::text::lemma_split_incl_pieces(block, '\n');
    lemma_first_version_at(ls);
    let i = version_line(ls)->0;
    assert(ls[i] == line_of(ps[i]));
    lemma_version_piece(ps[i], v);
    let np = version_piece(ps[i], v);
    let ps2 = ps.update(i, np);
    assert(pieces_ok(ps2, '\n')) by {
        assert forall|k: int| 0 <= k < ps2.len() implies {
            &&& (#[trigger] ps2[k]).len() > 0
            &&& forall|j: int| 0 <= j < ps2[k].len() - 1 ==> ps2[k][j] != '\n'
            &&& (k < ps2.len() - 1 ==> ps2[k].last() == '\n')
        } by {
            assert(ps[k].len() > 0);
            assert(forall|j: int| 0 <= j < ps[k].len() - 1 ==> #[trigger] ps[k][j] != '\n');
        }
    }
    crate::text::lemma_split_flatten(ps2, '\n');
    let ls2 = lines(ps2.flatten());
    assert(ls2 == ps2.map_values(|piece: Seq<char>| line_of(piece)));
    assert forall|j: int| 0 <= j < i implies strip_prefix(trim_start(#[trigger] ls2[j]), "version"@) is None by {
        assert(ls2[j] == line_of(ps[j]));
        assert(ls[j] == line_of(ps[j]));
    }
    assert(ls2[i] == line_of(np));
    lemma_version_line_first(ls2, i);
    lemma_first_version_at(ls2);
}


/// Reading back what `write_workspace_version` wrote gives the version
/// written, when it holds no line break and does not start or end with a
/// quote (reading strips quotes): with the contracts of the two functions,
/// `read_workspace_version(&write_workspace_version(t, v)?) == Ok(v)`.
pub proof fn law_read_after_write(text: Seq<char>, v: Seq<char>)
    requires
        written_text(text, v) is Some,
        forall|j: int| 0 <= j < v.len() ==> v[j] != '\n',
        v.len() > 0 ==> v[0] != '"' && v[0] != '\'' && v.last() != '"' && v.last() != '\'',
    ensures
        read_text(written_text(text, v)->0) == Some(v),
{
    let h = "[workspace.package]"@;
    reveal_strlit("[workspace.package]");
    assert(h =~= seq!['[', 'w', 'o', 'r', 'k', 's', 'p', 'a', 'c', 'e', '.', 'p', 'a', 'c', 'k', 'a', 'g', 'e', ']']);
    let nl = "\n["@;
    reveal_strlit("\n[");
    assert(nl =~= seq!['\n', '[']);
    let start = find_seq(text, h)->0;
    crate::text::lemma_find_from_bound(text, h, 0);
    assert(text.subrange(start, start + 19) == h);
    let rest = text.skip(start);
    assert(rest.take(19) =~= h);
    let block = package_block(text, start);
    let ps = split_incl(block, '\n');
    let ls = lines(block);
    crate::text::lemma_split_incl_pieces(block, '\n');
    // The block starts with the header.
    match find_seq(rest, nl) {
        Some(x) => {
            crate::text::lemma_find_from_bound(rest, nl, 0);
            assert(rest.subrange(x, x + 2) == nl);
            assert(rest.subrange(x, x + 2)[0] == rest[x]);
            if x < 19 {
                assert(rest[x] == h[x]);
            }
            assert(block == rest.take(x));
        },
        None => {
            assert(block == rest);
        },
    }
    assert(block.len() >= 19);
    assert(forall|j: int| 0 <= j < 19 ==> block[j] == h[j]);
    // Its first piece holds the header, so the version line is not the first.
    assert(ps.len() > 0) by {
        if ps.len() == 0 {
            assert(ps.flatten().len() == 0);
        }
    }
    let p0 = ps[0];
    assert(ps.flatten() == p0 + ps.drop_first().flatten());
    assert(p0.len() >= 19) by {
        if p0.len() < 19 {
            if ps.len() > 1 {
                assert(p0.last() == '\n');
                assert(block[p0.len() - 1] == p0[p0.len() - 1]);
            } else {
                assert(ps.drop_first().flatten().len() == 0);
            }
        }
    }
    assert(forall|j: int| 0 <= j < 19 ==> p0[j] == h[j]) by {
        assert forall|j: int| 0 <= j < 19 implies p0[j] == h[j] by {
            assert(block[j] == p0[j]);
        }
    }
    let line0 = line_of(p0);
    assert(line0.len() >= 17);
    assert(line0[0] == '[');
    crate::text::lemma_trim_start_after_ws(Seq::<char>::empty(), line0);
    assert(Seq::<char>::empty() + line0 =~= line0);
    assert(!is_ws('['));
    reveal_strlit("version");
    assert("version"@ =~= seq!['v', 'e', 'r', 's', 'i', 'o', 'n']);
    assert(strip_prefix(trim_start(line0), "version"@) is None) by {
        assert(trim_start(line0) == line0);
        if matches_at(line0, "version"@, 0) {
            assert(line0.subrange(0, 7)[0] == line0[0]);
        }
    }
    lemma_first_version_at(ls);
    let i = version_line(ls)->0;
    assert(ls[0] == line0);
    assert(i >= 1);
    // The new block.
    lemma_version_piece(ps[i], v);
    let np = version_piece(ps[i], v);
    let ps2 = ps.update(i, np);
    let nb = ps2.flatten();
    let tail = text.skip(start + block.len());
    let t2 = text.take(start) + nb + tail;
    assert(written_text(text, v) == Some(t2));
    assert(pieces_ok(ps2, '\n')) by {
        assert forall|k: int| 0 <= k < ps2.len() implies {
            &&& (#[trigger] ps2[k]).len() > 0
            &&& forall|j: int| 0 <= j < ps2[k].len() - 1 ==> ps2[k][j] != '\n'
            &&& (k < ps2.len() - 1 ==> ps2[k].last() == '\n')
        } by {
            assert(ps[k].len() > 0);
            assert(forall|j: int| 0 <= j < ps[k].len() - 1 ==> #[trigger] ps[k][j] != '\n');
        }
    }
    assert(ps2[0] == p0);
    assert(nb == p0 + ps2.drop_first().flatten());
    // The header is found at the same place.
    let l = start + 19;
    assert(t2.take(l) =~= text.take(l)) by {
        assert forall|j: int| 0 <= j < l implies t2[j] == text[j] by {
            if j >= start {
                assert(t2[j] == nb[j - start]);
                assert(nb[j - start] == p0[j - start]);
                assert(text[j] == rest[j - start]);
                assert(rest[j - start] == h[j - start]);
            }
        }
    }
    crate::text::lemma_find_agree(text, t2, h, l, 0, start);
    // No table opens inside the new block, and the old one ends as before.
    let rest2 = t2.skip(start);
    assert(rest2 =~= nb + tail);
    assert(rest =~= block + tail) by {
        match find_seq(rest, nl) {
            Some(x) => {
                assert(block =~= rest.take(x));
            },
            None => {},
        }
    }
    crate::text::lemma_open_in_pieces(ps, tail);
    crate::text::lemma_open_in_pieces(ps2, tail);
    match find_seq(rest, nl) {
        Some(x) => {
            crate::text::lemma_find_before(rest, nl, 0, x);
            crate::text::lemma_find_from_bound(rest, nl, 0);
            assert(block.len() == x);
            assert(tail =~= rest.skip(x));
            assert(tail[0] == rest[x]);
            assert(rest.subrange(x, x + 2)[0] == rest[x]);
        },
        None => {
            crate::text::lemma_find_none(rest, nl, 0);
            assert(tail.len() == 0);
        },
    }
    assert(!crate::text::opens_table(ps));
    assert(!crate::text::opens_table(ps2)) by {
        if crate::text::opens_table(ps2) {
            let k = choose|k: int| 0 <= k < ps2.len() - 1 && (#[trigger] ps2[k + 1])[0] == '[';
            if k + 1 == i {
                let line = line_of(ps[i]);
                crate::text::lemma_trim_start_shape(line);
                let indent = line.take(line.len() - trim_start(line).len());
                reveal_strlit("version = \"");
                assert("version = \""@[0] == 'v');
                if indent.len() > 0 {
                    assert(np[0] == indent[0]);
                    assert(indent[0] == line[0]);
                    assert(is_ws(line[0]));
                } else {
                    assert(np[0] == 'v');
                }
            } else {
                assert(ps2[k + 1] == ps[k + 1]);
                assert(crate::text::opens_table(ps));
            }
        }
    }
    assert(forall|p: int| 0 <= p < nb.len() ==> !matches_at(rest2, nl, p)) by {
        assert forall|p: int| 0 <= p < nb.len() implies !matches_at(rest2, nl, p) by {
            if matches_at(rest2, nl, p) {
                assert(exists|q: int| 0 <= q < ps2.flatten().len() && matches_at(ps2.flatten() + tail, nl, q));
            }
        }
    }
    match find_seq(rest, nl) {
        Some(x) => {
            assert(rest2.subrange(nb.len() as int, nb.len() as int + 2) =~= rest.subrange(x, x + 2));
            crate::text::lemma_find_first_match(rest2, nl, 0, nb.len() as int);
            assert(package_block(t2, start) =~= nb);
        },
        None => {
            crate::text::lemma_find_first_match(rest2, nl, 0, nb.len() as int);
            assert(package_block(t2, start) =~= nb);
        },
    }
    law_written_version_reads_back(block, v);
}

proof fn lemma_rewrite_pins_flat(
    ps: Seq<Seq<char>>,
    needle: Seq<char>,
    rep: Seq<char>,
    f: spec_fn(Seq<char>) -> Seq<char>,
)
    requires
        forall|p: Seq<char>| #[trigger] f(p) == (if pinned_line(p, needle) {
            replace_all(p, needle, rep)
        } else {
            p
        }),
    ensures
        rewrite_pins(ps, needle, rep) == ps.map_values(f).flatten_alt(),
    decreases ps.len(),
{
    if ps.len() > 0 {
        lemma_rewrite_pins_flat(ps.drop_last(), needle, rep, f);
        assert(ps.map_values(f).drop_last() =~= ps.drop_last().map_values(f));
    } else {
        assert(ps.map_values(f) =~= Seq::<Seq<char>>::empty());
    }
}

/// Each line of the dependency block is rewritten on its own, whatever the
/// lines before it: a pinned line has every occurrence of the old pin
/// replaced, any other line is kept as it is, and the lines stay in order.
pub proof fn law_every_pinned_line_is_rewritten(ps: Seq<Seq<char>>, needle: Seq<char>, rep: Seq<char>)
    ensures
        rewrite_pins(ps, needle, rep) == ps.map_values(
            |p: Seq<char>|
                if pinned_line(p, needle) {
                    replace_all(p, needle, rep)
                } else {
                    p
                },
        ).flatten(),
{
    let f = |p: Seq<char>|
        if pinned_line(p, needle) {
            replace_all(p, needle, rep)
        } else {
            p
        };
    lemma_rewrite_pins_flat(ps, needle, rep, f);
    ps.map_values(f).lemma_flatten_and_flatten_alt_are_equivalent();
}

/// Rewriting the pins of two runs of lines one after the other gives the
/// rewrite of each run, one after the other: no line's rewrite depends on
/// the lines around it.
pub proof fn law_pin_rewrite_splits(ps: Seq<Seq<char>>, qs: Seq<Seq<char>>, needle: Seq<char>, rep: Seq<char>)
    ensures
        rewrite_pins(ps + qs, needle, rep) == rewrite_pins(ps, needle, rep) + rewrite_pins(qs, needle, rep),
{
    let f = |p: Seq<char>|
        if pinned_line(p, needle) {
            replace_all(p, needle, rep)
        } else {
            p
        };
    lemma_rewrite_pins_flat(ps + qs, needle, rep, f);
    lemma_rewrite_pins_flat(ps, needle, rep, f);
    lemma_rewrite_pins_flat(qs, needle, rep, f);
    assert((ps + qs).map_values(f) =~= ps.map_values(f) + qs.map_values(f));
    vstd::seq_lib::lemma_flatten_concat(ps.map_values(f), qs.map_values(f));
    (ps + qs).map_values(f).lemma_flatten_and_flatten_alt_are_equivalent();
    ps.map_values(f).lemma_flatten_and_flatten_alt_are_equivalent();
    qs.map_values(f).lemma_flatten_and_flatten_alt_are_equivalent();
}

/// A line of `pyproject.toml` that sets the version: once its leading white
/// space is dropped it starts with `version`, and it holds `=`.
pub open spec fn assigns_version(line: Seq<char>) -> bool {
    strip_prefix(trim_start(line), "version"@) is Some && contains_seq(trim_start(line), "="@)
}

proof fn lemma_pyproject_untouched(ls: Seq<Seq<char>>, v: Seq<char>, f: spec_fn(Seq<char>) -> Seq<char>)
    requires
        forall|l: Seq<char>| #[trigger] f(l) == l + "\n"@,
        forall|j: int| 0 <= j < ls.len() ==> !assigns_version(#[trigger] ls[j]),
    ensures
        rewrite_pyproject(ls, v) == (ls.map_values(f).flatten_alt(), false),
    decreases ls.len(),
{
    if ls.len() > 0 {
        let d = ls.drop_last();
        assert forall|j: int| 0 <= j < d.len() implies !assigns_version(#[trigger] d[j]) by {
            assert(d[j] == ls[j]);
        }
        lemma_pyproject_untouched(d, v, f);
        assert(ls.map_values(f).drop_last() =~= d.map_values(f));
        assert(!assigns_version(ls[ls.len() - 1]));
    } else {
        assert(ls.map_values(f) =~= Seq::<Seq<char>>::empty());
    }
}

proof fn lemma_pyproject_set(ls: Seq<Seq<char>>, v: Seq<char>, k: int, f: spec_fn(Seq<char>) -> Seq<char>)
    requires
        forall|l: Seq<char>| #[trigger] f(l) == l + "\n"@,
        0 <= k < ls.len(),
        assigns_version(ls[k]),
        forall|j: int| 0 <= j < k ==> !assigns_version(#[trigger] ls[j]),
    ensures
        rewrite_pyproject(ls, v) == (ls.update(k, "version = \""@ + v + "\""@).map_values(f).flatten_alt(), true),
    decreases ls.len(),
{
    let vl = "version = \""@ + v + "\""@;
    let d = ls.drop_last();
    let m = ls.update(k, vl).map_values(f);
    if ls.len() == k + 1 {
        assert forall|j: int| 0 <= j < d.len() implies !assigns_version(#[trigger] d[j]) by {
            assert(d[j] == ls[j]);
        }
        lemma_pyproject_untouched(d, v, f);
        assert(m.drop_last() =~= d.map_values(f));
        assert(m.last() == f(vl));
        reveal_strlit("\"\n");
        reveal_strlit("\"");
        reveal_strlit("\n");
        assert("version = \""@ + v + "\"\n"@ =~= vl + "\n"@);
    } else {
        assert forall|j: int| 0 <= j < k implies !assigns_version(#[trigger] d[j]) by {
            assert(d[j] == ls[j]);
        }
        assert(d[k] == ls[k]);
        lemma_pyproject_set(d, v, k, f);
        assert(m.drop_last() =~= d.update(k, vl).map_values(f));
        assert(m.last() == f(ls.last()));
    }
}

/// Only the version line of `pyproject.toml` changes: the text written is
/// every line of the file, in order, each ended by `\n`, with the first line
/// that sets the version replaced by `version = "<version>"`; no other line
/// is dropped, added or changed.
pub proof fn law_only_the_version_line_changes(ls: Seq<Seq<char>>, v: Seq<char>, k: int)
    requires
        0 <= k < ls.len(),
        assigns_version(ls[k]),
        forall|j: int| 0 <= j < k ==> !assigns_version(#[trigger] ls[j]),
    ensures
        rewrite_pyproject(ls, v) == (ls.update(k, "version = \""@ + v + "\""@).map_values(
            |l: Seq<char>| l + "\n"@,
        ).flatten(), true),
{
    let f = |l: Seq<char>| l + "\n"@;
    lemma_pyproject_set(ls, v, k, f);
    ls.update(k, "version = \""@ + v + "\""@).map_values(f).lemma_flatten_and_flatten_alt_are_equivalent();
}

/// Without a line that sets the version nothing is replaced: every line is
/// kept, in order, each ended by `\n`, and the rewrite tells that it found
/// none.
pub proof fn law_without_a_version_line_nothing_changes(ls: Seq<Seq<char>>, v: Seq<char>)
    requires
        forall|j: int| 0 <= j < ls.len() ==> !assigns_version(#[trigger] ls[j]),
    ensures
        rewrite_pyproject(ls, v) == (ls.map_values(|l: Seq<char>| l + "\n"@).flatten(), false),
{
    let f = |l: Seq<char>| l + "\n"@;
    lemma_pyproject_untouched(ls, v, f);
    ls.map_values(f).lemma_flatten_and_flatten_alt_are_equivalent();
}

} // verus!
