//! The line-based configuration grammar.
//!
//! Blank lines and lines whose first non-blank byte is `#` are ignored.
//! `STORE <path>` names the storage root (required; the last one wins) and
//! `LOG <name>` adds a channel; repeated names collapse into one entry. Any
//! other non-blank, non-comment line is a parse error. Whitespace around a
//! line and after the keyword is trimmed.

use vstd::prelude::*;
use crate::bytes::copy_range;

verus! {

/// Why a configuration text is rejected.
#[derive(Clone, Copy, Debug, PartialEq, Eq, Structural)]
pub enum Error {
    /// A non-blank, non-comment line matches neither `LOG` nor `STORE`.
    ParseError,
    /// No `STORE` line names a storage root.
    MissingStore,
}

/// ASCII whitespace, as trimming understands it.
pub open spec fn is_space(b: u8) -> bool {
    b == 32 || b == 9 || b == 10 || b == 11 || b == 12 || b == 13
}

/// `s` without its leading whitespace.
pub open spec fn spec_trim_left(s: Seq<u8>) -> Seq<u8>
    decreases s.len(),
{
    if s.len() == 0 {
        s
    } else if is_space(s.first()) {
        spec_trim_left(s.drop_first())
    } else {
        s
    }
}

/// `s` without its trailing whitespace.
pub open spec fn spec_trim_right(s: Seq<u8>) -> Seq<u8>
    decreases s.len(),
{
    if s.len() == 0 {
        s
    } else if is_space(s.last()) {
        spec_trim_right(s.drop_last())
    } else {
        s
    }
}

/// `s` without leading and trailing whitespace.
pub open spec fn spec_trim(s: Seq<u8>) -> Seq<u8> {
    spec_trim_right(spec_trim_left(s))
}

/// The bytes of `LOG ` (keyword and one space).
pub open spec fn log_keyword() -> Seq<u8> {
    seq![76u8, 79u8, 71u8, 32u8]
}

/// The bytes of `STORE ` (keyword and one space).
pub open spec fn store_keyword() -> Seq<u8> {
    seq![83u8, 84u8, 79u8, 82u8, 69u8, 32u8]
}

/// A line of nothing but whitespace, ignored.
pub open spec fn line_is_blank(l: Seq<u8>) -> bool {
    spec_trim(l).len() == 0
}

/// A comment: the first non-blank byte is `#`.
pub open spec fn line_is_comment(l: Seq<u8>) -> bool {
    spec_trim(l).len() > 0 && spec_trim(l).first() == 35u8
}

/// A channel line: the trimmed line starts with `LOG `.
pub open spec fn line_is_log(l: Seq<u8>) -> bool {
    log_keyword().is_prefix_of(spec_trim(l))
}

/// The channel name of a `LOG` line: what follows the keyword, with further
/// leading whitespace trimmed.
pub open spec fn line_log_name(l: Seq<u8>) -> Seq<u8> {
    spec_trim_left(spec_trim(l).skip(4))
}

/// A storage-root line: the trimmed line starts with `STORE `.
pub open spec fn line_is_store(l: Seq<u8>) -> bool {
    store_keyword().is_prefix_of(spec_trim(l))
}

/// The path of a `STORE` line: what follows the keyword, with further leading
/// whitespace trimmed.
pub open spec fn line_store_path(l: Seq<u8>) -> Seq<u8> {
    spec_trim_left(spec_trim(l).skip(6))
}

/// A line no rule accepts: a fatal parse error.
pub open spec fn line_is_bad(l: Seq<u8>) -> bool {
    !line_is_blank(l) && !line_is_comment(l) && !line_is_log(l) && !line_is_store(l)
}

/// The lines of a text, split at every newline byte. A final line needs no
/// trailing newline; a trailing newline adds no empty final line.
pub open spec fn spec_lines(s: Seq<u8>) -> Seq<Seq<u8>>
    decreases s.len(),
{
    if s.len() == 0 {
        Seq::empty()
    } else if s.first() == 10u8 {
        seq![Seq::<u8>::empty()] + spec_lines(s.drop_first())
    } else {
        let rest = spec_lines(s.drop_first());
        if rest.len() == 0 {
            seq![s]
        } else {
            seq![seq![s.first()] + rest.first()] + rest.drop_first()
        }
    }
}

/// No line is a parse error.
pub open spec fn lines_ok(lines: Seq<Seq<u8>>) -> bool {
    forall|i: int| 0 <= i < lines.len() ==> !line_is_bad(#[trigger] lines[i])
}

/// The storage root the lines configure: the path of the last `STORE` line,
/// if any.
pub open spec fn scan_store(lines: Seq<Seq<u8>>) -> Option<Seq<u8>>
    decreases lines.len(),
{
    if lines.len() == 0 {
        None
    } else if line_is_store(lines.last()) {
        Some(line_store_path(lines.last()))
    } else {
        scan_store(lines.drop_last())
    }
}

/// The channel set the lines configure: every `LOG` line's name, repeated
/// names collapsing into one entry.
pub open spec fn scan_logs(lines: Seq<Seq<u8>>) -> Set<Seq<u8>>
    decreases lines.len(),
{
    if lines.len() == 0 {
        Set::empty()
    } else if line_is_log(lines.last()) {
        scan_logs(lines.drop_last()).insert(line_log_name(lines.last()))
    } else {
        scan_logs(lines.drop_last())
    }
}

/// What a configuration text means: its storage root and channel set, or the
/// error it is rejected with. Any bad line is a parse error; otherwise a
/// missing `STORE` line is fatal.
pub open spec fn spec_config_of(text: Seq<u8>) -> Result<(Seq<u8>, Set<Seq<u8>>), Error> {
    let lines = spec_lines(text);
    if !lines_ok(lines) {
        Err(Error::ParseError)
    } else {
        match scan_store(lines) {
            None => Err(Error::MissingStore),
            Some(store) => Ok((store, scan_logs(lines))),
        }
    }
}

proof fn lemma_trim_left_skip(s: Seq<u8>, lo: int)
    requires
        0 <= lo <= s.len(),
        forall|k: int| 0 <= k < lo ==> is_space(#[trigger] s[k]),
        lo < s.len() ==> !is_space(s[lo]),
    ensures
        spec_trim_left(s) == s.skip(lo),
    decreases lo,
{
    if lo == 0 {
        assert(s.skip(0) =~= s);
    } else {
        lemma_trim_left_skip(s.drop_first(), lo - 1);
        assert(s.drop_first().skip(lo - 1) =~= s.skip(lo));
    }
}

proof fn lemma_trim_right_take(s: Seq<u8>, hi: int)
    requires
        0 <= hi <= s.len(),
        forall|k: int| hi <= k < s.len() ==> is_space(#[trigger] s[k]),
        hi > 0 ==> !is_space(s[hi - 1]),
    ensures
        spec_trim_right(s) == s.take(hi),
    decreases s.len(),
{
    if hi == s.len() {
        assert(s.take(hi) =~= s);
    } else {
        lemma_trim_right_take(s.drop_last(), hi);
        assert(s.drop_last().take(hi) =~= s.take(hi));
    }
}

proof fn lemma_lines_break(c: Seq<u8>, rest: Seq<u8>)
    requires
        forall|k: int| 0 <= k < c.len() ==> #[trigger] c[k] != 10u8,
    ensures
        spec_lines(c + seq![10u8] + rest) == seq![c] + spec_lines(rest),
    decreases c.len(),
{
    let s = c + seq![10u8] + rest;
    if c.len() == 0 {
        assert(s =~= seq![10u8] + rest);
        assert(s.drop_first() =~= rest);
        assert(c =~= Seq::<u8>::empty());
    } else {
        assert(s.first() == c.first());
        assert(s.drop_first() =~= c.drop_first() + seq![10u8] + rest);
        lemma_lines_break(c.drop_first(), rest);
        let r = spec_lines(s.drop_first());
        assert(r == seq![c.drop_first()] + spec_lines(rest));
        assert(r.first() == c.drop_first());
        assert(r.drop_first() =~= spec_lines(rest));
        assert(seq![s.first()] + c.drop_first() =~= c);
        assert(spec_lines(s) =~= seq![c] + spec_lines(rest));
    }
}

proof fn lemma_lines_solo(c: Seq<u8>)
    requires
        c.len() > 0,
        forall|k: int| 0 <= k < c.len() ==> #[trigger] c[k] != 10u8,
    ensures
        spec_lines(c) == seq![c],
    decreases c.len(),
{
    if c.len() == 1 {
        assert(c.drop_first() =~= Seq::<u8>::empty());
        assert(spec_lines(c.drop_first()) == Seq::<Seq<u8>>::empty());
    } else {
        lemma_lines_solo(c.drop_first());
        assert(seq![c.drop_first()].drop_first() =~= Seq::<Seq<u8>>::empty());
        assert(seq![c.first()] + c.drop_first() =~= c);
        assert(spec_lines(c) =~= seq![c]);
    }
}

fn is_space_byte(b: u8) -> (r: bool)
    ensures
        r == is_space(b),
{
    b == 32 || b == 9 || b == 10 || b == 11 || b == 12 || b == 13
}

/// Splits a text into its lines, as the grammar reads them.
fn split_lines(text: &[u8]) -> (r: Vec<Vec<u8>>)
    ensures
        r@.map_values(|l: Vec<u8>| l@) == spec_lines(text@),
{
    let mut out: Vec<Vec<u8>> = Vec::new();
    let mut cur: Vec<u8> = Vec::new();
    let mut i: usize = 0;
    proof {
        assert(cur@ + text@.skip(0) =~= text@);
        assert(out@.map_values(|l: Vec<u8>| l@) + spec_lines(text@) =~= spec_lines(text@));
    }
    while i < text.len()
        invariant
            i <= text@.len(),
            forall|k: int| 0 <= k < cur@.len() ==> #[trigger] cur@[k] != 10u8,
            out@.map_values(|l: Vec<u8>| l@) + spec_lines(cur@ + text@.skip(i as int))
                == spec_lines(text@),
        decreases text@.len() - i,
    {
        let b = text[i];
        if b == 10 {
            proof {
                assert(cur@ + text@.skip(i as int) =~= cur@ + seq![10u8] + text@.skip(i + 1));
                lemma_lines_break(cur@, text@.skip(i + 1));
            }
            let ghost before = out@.map_values(|l: Vec<u8>| l@);
            let ghost finished = cur@;
            out.push(cur);
            cur = Vec::new();
            proof {
                assert(out@.map_values(|l: Vec<u8>| l@) =~= before.push(finished));
                assert(cur@ + text@.skip(i + 1) =~= text@.skip(i + 1));
                assert(before.push(finished) + spec_lines(text@.skip(i + 1))
                    =~= before + (seq![finished] + spec_lines(text@.skip(i + 1))));
            }
        } else {
            proof {
                assert(cur@.push(b) + text@.skip(i + 1) =~= cur@ + text@.skip(i as int));
            }
            cur.push(b);
        }
        i += 1;
    }
    proof {
        assert(cur@ + text@.skip(i as int) =~= cur@);
    }
    if cur.len() > 0 {
        proof {
            lemma_lines_solo(cur@);
        }
        let ghost before = out@.map_values(|l: Vec<u8>| l@);
        let ghost finished = cur@;
        out.push(cur);
        proof {
            assert(out@.map_values(|l: Vec<u8>| l@) =~= before.push(finished));
            assert(before.push(finished) =~= before + seq![finished]);
        }
    } else {
        proof {
            assert(spec_lines(cur@) == Seq::<Seq<u8>>::empty());
            assert(out@.map_values(|l: Vec<u8>| l@) + Seq::<Seq<u8>>::empty()
                =~= out@.map_values(|l: Vec<u8>| l@));
        }
    }
    out
}

/// Trims whitespace from both ends of a line.
fn trim_bytes(line: &[u8]) -> (r: Vec<u8>)
    ensures
        r@ == spec_trim(line@),
{
    let mut lo: usize = 0;
    while lo < line.len() && is_space_byte(line[lo])
        invariant
            lo <= line@.len(),
            forall|k: int| 0 <= k < lo ==> is_space(#[trigger] line@[k]),
        decreases line@.len() - lo,
    {
        lo += 1;
    }
    proof {
        lemma_trim_left_skip(line@, lo as int);
    }
    let mut hi: usize = line.len();
    while hi > lo && is_space_byte(line[hi - 1])
        invariant
            lo <= hi <= line@.len(),
            forall|k: int| hi <= k < line@.len() ==> is_space(#[trigger] line@[k]),
        decreases hi,
    {
        hi -= 1;
    }
    proof {
        let s2 = line@.skip(lo as int);
        assert forall|k: int| hi - lo <= k < s2.len() implies is_space(#[trigger] s2[k]) by {
            assert(s2[k] == line@[k + lo]);
        }
        if hi - lo > 0 {
            assert(s2[hi - lo - 1] == line@[hi - 1]);
        }
        lemma_trim_right_take(s2, hi - lo as int);
        assert(s2.take(hi - lo as int) =~= line@.subrange(lo as int, hi as int));
    }
    copy_range(line, lo, hi)
}

/// Copies the tail of `s` from `start` on, with leading whitespace trimmed.
fn trim_left_from(s: &[u8], start: usize) -> (r: Vec<u8>)
    requires
        start <= s@.len(),
    ensures
        r@ == spec_trim_left(s@.skip(start as int)),
{
    let mut lo: usize = start;
    while lo < s.len() && is_space_byte(s[lo])
        invariant
            start <= lo <= s@.len(),
            forall|k: int| start <= k < lo ==> is_space(#[trigger] s@[k]),
        decreases s@.len() - lo,
    {
        lo += 1;
    }
    proof {
        let s2 = s@.skip(start as int);
        assert forall|k: int| 0 <= k < lo - start implies is_space(#[trigger] s2[k]) by {
            assert(s2[k] == s@[k + start]);
        }
        if lo - start < s2.len() {
            assert(s2[lo - start] == s@[lo as int]);
        }
        lemma_trim_left_skip(s2, lo - start as int);
        assert(s2.skip(lo - start as int) =~= s@.subrange(lo as int, s@.len() as int));
    }
    copy_range(s, lo, s.len())
}

fn keyword_log(t: &[u8]) -> (r: bool)
    ensures
        r == log_keyword().is_prefix_of(t@),
{
    if t.len() >= 4 && t[0] == 76 && t[1] == 79 && t[2] == 71 && t[3] == 32 {
        proof {
            assert(log_keyword() =~= t@.subrange(0, 4));
        }
        true
    } else {
        proof {
            if log_keyword().is_prefix_of(t@) {
                assert(t@[0] == t@.subrange(0, 4)[0]);
                assert(t@[1] == t@.subrange(0, 4)[1]);
                assert(t@[2] == t@.subrange(0, 4)[2]);
                assert(t@[3] == t@.subrange(0, 4)[3]);
            }
        }
        false
    }
}

fn keyword_store(t: &[u8]) -> (r: bool)
    ensures
        r == store_keyword().is_prefix_of(t@),
{
    if t.len() >= 6 && t[0] == 83 && t[1] == 84 && t[2] == 79 && t[3] == 82 && t[4] == 69 && t[5]
        == 32 {
        proof {
            assert(store_keyword() =~= t@.subrange(0, 6));
        }
        true
    } else {
        proof {
            if store_keyword().is_prefix_of(t@) {
                assert(t@[0] == t@.subrange(0, 6)[0]);
                assert(t@[1] == t@.subrange(0, 6)[1]);
                assert(t@[2] == t@.subrange(0, 6)[2]);
                assert(t@[3] == t@.subrange(0, 6)[3]);
                assert(t@[4] == t@.subrange(0, 6)[4]);
                assert(t@[5] == t@.subrange(0, 6)[5]);
            }
        }
        false
    }
}

fn contains_bytes(v: &Vec<Vec<u8>>, x: &[u8]) -> (r: bool)
    ensures
        r == v@.map_values(|l: Vec<u8>| l@).contains(x@),
{
    let mut j: usize = 0;
    while j < v.len()
        invariant
            j <= v@.len(),
            forall|k: int| 0 <= k < j ==> #[trigger] v@[k]@ != x@,
        decreases v@.len() - j,
    {
        let e = &v[j];
        if crate::bytes::bytes_equal(e.as_slice(), x) {
            proof {
                assert(v@.map_values(|l: Vec<u8>| l@)[j as int] == x@);
            }
            return true;
        }
        j += 1;
    }
    proof {
        let m = v@.map_values(|l: Vec<u8>| l@);
        assert forall|k: int| 0 <= k < m.len() implies #[trigger] m[k] != x@ by {
            assert(m[k] == v@[k]@);
        }
        assert(!m.contains(x@));
    }
    false
}

/// What scanning a text finds, before the storage root is demanded: the last
/// `STORE` path, if any, and every configured channel name, each once.
pub struct RawConfig {
    /// The path of the last `STORE` line.
    pub store: Option<Vec<u8>>,
    /// The configured channel names, without repetition.
    pub logs: Vec<Vec<u8>>,
}

impl RawConfig {
    /// The channel names as mathematical sequences.
    pub open spec fn log_views(self) -> Seq<Seq<u8>> {
        self.logs@.map_values(|l: Vec<u8>| l@)
    }

    /// The configured channel set.
    pub open spec fn log_set(self) -> Set<Seq<u8>> {
        self.log_views().to_set()
    }

    /// The storage root, as a mathematical value.
    pub open spec fn spec_store(self) -> Option<Seq<u8>> {
        match self.store {
            Some(st) => Some(st@),
            None => None,
        }
    }

    /// No channel name is listed twice.
    pub open spec fn wf(self) -> bool {
        self.log_views().no_duplicates()
    }
}

/// Scans a configuration text line by line. Returns the storage root and
/// channel set the text configures, or `Error::ParseError` exactly when some
/// line is neither blank, comment, `LOG` nor `STORE`.
fn scan_text(text: &[u8]) -> (r: Result<RawConfig, Error>)
    ensures
        match r {
            Ok(rc) => {
                &&& lines_ok(spec_lines(text@))
                &&& rc.wf()
                &&& rc.spec_store() == scan_store(spec_lines(text@))
                &&& rc.log_set() == scan_logs(spec_lines(text@))
            },
            Err(e) => e == Error::ParseError && !lines_ok(spec_lines(text@)),
        },
{
    let lines = split_lines(text);
    let ghost lviews = spec_lines(text@);
    let mut store: Option<Vec<u8>> = None;
    let mut logs: Vec<Vec<u8>> = Vec::new();
    let mut i: usize = 0;
    proof {
        assert(lviews.take(0) =~= Seq::<Seq<u8>>::empty());
    }
    while i < lines.len()
        invariant
            i <= lines@.len(),
            lines@.map_values(|l: Vec<u8>| l@) == lviews,
            lviews == spec_lines(text@),
            forall|k: int| 0 <= k < i ==> !line_is_bad(#[trigger] lviews[k]),
            match store {
                Some(st) => scan_store(lviews.take(i as int)) == Some(st@),
                None => scan_store(lviews.take(i as int)) is None,
            },
            logs@.map_values(|l: Vec<u8>| l@).to_set() == scan_logs(lviews.take(i as int)),
            logs@.map_values(|l: Vec<u8>| l@).no_duplicates(),
        decreases lines@.len() - i,
    {
        let ghost prefix = lviews.take(i as int);
        proof {
            assert(lviews.take(i + 1).drop_last() =~= prefix);
            assert(lviews.take(i + 1).last() == lviews[i as int]);
        }
        let line = &lines[i];
        let t = trim_bytes(line.as_slice());
        assert(t@ == spec_trim(lviews[i as int]));
        if t.len() == 0 {
            // blank: ignored; neither a store nor a log line, since both
            // keywords need at least four bytes
            assert(!line_is_store(lviews[i as int]));
            assert(!line_is_log(lviews[i as int]));
        } else if t[0] == 35 {
            // comment: ignored
            proof {
                if line_is_log(lviews[i as int]) {
                    assert(t@[0] == t@.subrange(0, 4)[0]);
                }
                if line_is_store(lviews[i as int]) {
                    assert(t@[0] == t@.subrange(0, 6)[0]);
                }
            }
        } else if keyword_log(t.as_slice()) {
            proof {
                if line_is_store(lviews[i as int]) {
                    assert(t@[0] == t@.subrange(0, 6)[0]);
                    assert(t@[0] == t@.subrange(0, 4)[0]);
                }
            }
            let name = trim_left_from(t.as_slice(), 4);
            assert(name@ == line_log_name(lviews[i as int]));
            let ghost old_views = logs@.map_values(|l: Vec<u8>| l@);
            if !contains_bytes(&logs, name.as_slice()) {
                logs.push(name);
                proof {
                    assert(logs@.map_values(|l: Vec<u8>| l@) =~= old_views.push(name@));
                    assert(old_views.push(name@) =~= old_views + seq![name@]);
                    Seq::lemma_to_set_insert_commutes(old_views, name@);
                }
            } else {
                proof {
                    assert(old_views.to_set().contains(name@));
                    assert(old_views.to_set().insert(name@) =~= old_views.to_set());
                }
            }
        } else if keyword_store(t.as_slice()) {
            let path = trim_left_from(t.as_slice(), 6);
            assert(path@ == line_store_path(lviews[i as int]));
            store = Some(path);
        } else {
            // a line no rule accepts
            assert(line_is_bad(lviews[i as int]));
            return Err(Error::ParseError);
        }
        i += 1;
    }
    proof {
        assert(lviews.take(i as int) =~= lviews);
    }
    Ok(RawConfig { store, logs })
}

/// A parsed configuration: the storage root and the set of channel names.
pub struct Config {
    /// The storage root under which every channel's segments live.
    pub store: Vec<u8>,
    /// The configured channel names, each once.
    pub logs: Vec<Vec<u8>>,
}

impl Config {
    /// The channel names as mathematical sequences.
    pub open spec fn log_views(self) -> Seq<Seq<u8>> {
        self.logs@.map_values(|l: Vec<u8>| l@)
    }

    /// The configured channel set.
    pub open spec fn log_set(self) -> Set<Seq<u8>> {
        self.log_views().to_set()
    }

    /// No channel name is listed twice.
    pub open spec fn wf(self) -> bool {
        self.log_views().no_duplicates()
    }

    /// Parses a whole configuration text, as read from the daemon's
    /// configuration file. Returns the configuration the text means, or
    /// exactly the error [`spec_config_of`] assigns to it.
    pub fn new_from_buf_read(text: &[u8]) -> (r: Result<Config, Error>)
        ensures
            match r {
                Ok(c) => {
                    &&& spec_config_of(text@) == Ok::<_, Error>((c.store@, c.log_set()))
                    &&& c.wf()
                },
                Err(e) => spec_config_of(text@) == Err::<(Seq<u8>, Set<Seq<u8>>), _>(e),
            },
    {
        match Self::scan(text) {
            Err(e) => Err(e),
            Ok(rc) => {
                let RawConfig { store, logs } = rc;
                match store {
                    None => Err(Error::MissingStore),
                    Some(store) => Ok(Config { store, logs }),
                }
            },
        }
    }

    /// Scans a configuration text without demanding the storage root; the
    /// channel set of a rootless text is still collected.
    pub fn scan(text: &[u8]) -> (r: Result<RawConfig, Error>)
        ensures
            match r {
                Ok(rc) => {
                    &&& lines_ok(spec_lines(text@))
                    &&& rc.wf()
                    &&& rc.spec_store() == scan_store(spec_lines(text@))
                    &&& rc.log_set() == scan_logs(spec_lines(text@))
                },
                Err(e) => e == Error::ParseError && !lines_ok(spec_lines(text@)),
            },
    {
        scan_text(text)
    }
}

proof fn lemma_scan_append(a: Seq<Seq<u8>>, b: Seq<Seq<u8>>)
    ensures
        lines_ok(a + b) <==> (lines_ok(a) && lines_ok(b)),
        scan_store(a + b) == (match scan_store(b) {
            Some(st) => Some(st),
            None => scan_store(a),
        }),
        scan_logs(a + b) == scan_logs(a) + scan_logs(b),
    decreases b.len(),
{
    if b.len() == 0 {
        assert(a + b =~= a);
        assert(scan_logs(a) + scan_logs(b) =~= scan_logs(a));
        assert(lines_ok(b));
    } else {
        lemma_scan_append(a, b.drop_last());
        assert((a + b).drop_last() =~= a + b.drop_last());
        assert((a + b).last() == b.last());
        if line_is_log(b.last()) {
            assert((scan_logs(a) + scan_logs(b.drop_last())).insert(line_log_name(b.last()))
                =~= scan_logs(a) + scan_logs(b.drop_last()).insert(line_log_name(b.last())));
        }
        assert(lines_ok(a + b) <==> (lines_ok(a) && lines_ok(b))) by {
            if lines_ok(a + b) {
                assert forall|k: int| 0 <= k < a.len() implies !line_is_bad(#[trigger] a[k]) by {
                    assert(a[k] == (a + b)[k]);
                }
                assert forall|k: int| 0 <= k < b.len() implies !line_is_bad(#[trigger] b[k]) by {
                    assert(b[k] == (a + b)[k + a.len()]);
                }
            }
            if lines_ok(a) && lines_ok(b) {
                assert forall|k: int| 0 <= k < (a + b).len() implies !line_is_bad(
                    #[trigger] (a + b)[k],
                ) by {
                    if k < a.len() {
                        assert((a + b)[k] == a[k]);
                    } else {
                        assert((a + b)[k] == b[k - a.len()]);
                    }
                }
            }
        }
    }
}

proof fn lemma_lines_nonempty(s: Seq<u8>)
    requires
        s.len() > 0,
    ensures
        spec_lines(s).len() >= 1,
{
}

proof fn lemma_lines_append(a: Seq<u8>, b: Seq<u8>)
    requires
        a.len() == 0 || a.last() == 10u8,
    ensures
        spec_lines(a + b) == spec_lines(a) + spec_lines(b),
    decreases a.len(),
{
    if a.len() == 0 {
        assert(a + b =~= b);
        assert(spec_lines(a) + spec_lines(b) =~= spec_lines(b));
    } else {
        let s = a + b;
        let adf = a.drop_first();
        assert(s.first() == a.first());
        assert(s.drop_first() =~= adf + b);
        if a.len() == 1 {
            assert(adf =~= Seq::<u8>::empty());
        }
        lemma_lines_append(adf, b);
        if a.first() == 10u8 {
            assert(spec_lines(s) == seq![Seq::<u8>::empty()] + (spec_lines(adf) + spec_lines(b)));
            assert(spec_lines(a) == seq![Seq::<u8>::empty()] + spec_lines(adf));
            assert(seq![Seq::<u8>::empty()] + (spec_lines(adf) + spec_lines(b))
                =~= (seq![Seq::<u8>::empty()] + spec_lines(adf)) + spec_lines(b));
        } else {
            // the first byte is not a newline, and `a` ends with one, so `a`
            // has at least two bytes and its tail still ends with a newline
            assert(a.len() >= 2);
            assert(adf.last() == 10u8);
            lemma_lines_nonempty(adf);
            let ra = spec_lines(adf);
            let rs = spec_lines(s.drop_first());
            assert(rs == ra + spec_lines(b));
            assert(rs.len() >= 1);
            assert(rs.first() == ra.first());
            assert(rs.drop_first() =~= ra.drop_first() + spec_lines(b));
            assert(spec_lines(s) == seq![seq![s.first()] + rs.first()] + rs.drop_first());
            assert(spec_lines(a) == seq![seq![a.first()] + ra.first()] + ra.drop_first());
            assert(seq![seq![a.first()] + ra.first()] + (ra.drop_first() + spec_lines(b))
                =~= (seq![seq![a.first()] + ra.first()] + ra.drop_first()) + spec_lines(b));
        }
    }
}

/// Parsing is idempotent: a configuration text whose last line is closed by a
/// newline means, concatenated with itself, exactly what it means alone — the
/// same storage root, the same channel set, or the same error. (Without the
/// final newline the law fails: in `STORE x` followed by itself the two copies
/// fuse into the one bad line `STORE xSTORE x`.) In particular, repeated
/// `LOG` lines for one name collapse into a single channel entry.
pub proof fn lemma_parse_idempotent(text: Seq<u8>)
    requires
        text.len() == 0 || text.last() == 10u8,
    ensures
        spec_config_of(text + text) == spec_config_of(text),
{
    lemma_lines_append(text, text);
    let l = spec_lines(text);
    lemma_scan_append(l, l);
    assert(scan_logs(l) + scan_logs(l) =~= scan_logs(l));
}

} // verus!
