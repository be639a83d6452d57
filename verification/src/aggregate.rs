//! Turns many reports into proposals a maintainer reviews. BLOCKED is never
//! touched in either direction, an existing VERIFIED entry keeps its speed,
//! one report counts per (reporter, title), and a suggested ceiling never goes
//! below one the catalogue already grants. Launch options are counted apart:
//! at least [`MIN_LAUNCH_ARG_REPORTERS`] distinct reporters spelling the same
//! switch, BLOCKED never, VERIFIED allowed. Nothing here writes the catalogue
//! or its signature.

use vstd::prelude::*;
use crate::form::SessionOutcome;
use crate::launch_flags::clean_launch_chars;
use crate::parse::{kept_launch_argument, opt_view, parse_issue_body, read_report, FieldsView, Report, ReportFields};
use crate::profiles_lite::{lookup_of, Db, Query};
use crate::speed::{clamp_key, max_key, min_key, SpeedKey, INFINITY_SPEED, MAX_SPEED, MIN_SPEED, ZERO_SPEED};
use crate::tally::{
    ballots_view, group, groups_in_order, in_group, indices, is_latest, key_lt, key_of, lemma_group_upto,
    same_slot, sort_keys, Ballot, BallotBox,
};
use crate::text::{append_str, chars_of, lemma_lex_order, lex_lt, string_of};

verus! {

pub const MIN_REPORTERS: usize = 3;
pub const STRONG_REPORTERS: usize = 5;
/// Strong evidence needs at least this many tenths of clean runs.
pub const STRONG_CLEAN_TENTHS: usize = 9;
/// Moderate evidence needs at least this many tenths of clean runs.
pub const MODERATE_CLEAN_TENTHS: usize = 7;
/// Distinct reporters who must propose the SAME launch option, spelled the
/// same, for one title. Accounts are free: this filters noise, it does not
/// make a flag safe.
pub const MIN_LAUNCH_ARG_REPORTERS: usize = 10;

/// A character of an identity as a file name carries it: `:` and `/` become
/// `_`.
pub open spec fn file_char(c: char) -> char {
    if c == ':' || c == '/' {
        '_'
    } else {
        c
    }
}

/// The file a proposal is written to: the title's identity made a file name
/// the same way for every kind of proposal, `suffix` telling the kinds apart.
pub fn proposal_file_name(identity: &str, suffix: &str) -> (r: String)
    ensures
        r@ == identity@.map_values(|c: char| file_char(c)) + suffix@,
{
    let v = chars_of(identity);
    let mut out: Vec<char> = Vec::new();
    let mut i: usize = 0;
    while i < v.len()
        invariant
            i <= v.len(),
            v@ == identity@,
            out@ == v@.take(i as int).map_values(|c: char| file_char(c)),
        decreases v.len() - i,
    {
        let c = v[i];
        out.push(if c == ':' || c == '/' { '_' } else { c });
        assert(v@.take(i + 1) == v@.take(i as int).push(c));
        i += 1;
    }
    assert(v@.take(v.len() as int) == v@);
    append_str(&mut out, suffix);
    string_of(&out)
}

/// One row of the issue list: its number, its author and its body.
#[derive(Debug, Clone)]
pub struct RawIssue {
    pub number: u64,
    pub author: Author,
    pub body: String,
}

#[derive(Debug, Clone)]
pub struct Author {
    pub login: String,
    pub is_bot: bool,
}

/// One issue read as a report, its factors still the text a reporter wrote.
#[derive(Debug, Clone)]
pub struct ParsedIssue {
    pub author: String,
    pub issue_number: u64,
    pub fields: ReportFields,
}

impl View for ParsedIssue {
    type V = (Seq<char>, u64, FieldsView);

    open spec fn view(&self) -> (Seq<char>, u64, FieldsView) {
        (self.author@, self.issue_number, self.fields@)
    }
}

/// One report with its factors read, ready to be counted.
#[derive(Debug, Clone)]
pub struct ParsedReport {
    pub author: String,
    pub issue_number: u64,
    pub report: Report,
}

/// The issues that read as reports, in order: every issue whose author is
/// not a bot and whose body names a title.
pub open spec fn parsed_issues(raw: Seq<RawIssue>) -> Seq<(Seq<char>, u64, FieldsView)>
    decreases raw.len(),
{
    if raw.len() == 0 {
        Seq::empty()
    } else {
        let before = parsed_issues(raw.drop_last());
        let i = raw.last();
        if !i.author.is_bot && read_report(i.body@) is Some {
            before.push((i.author.login@, i.number, read_report(i.body@)->Some_0))
        } else {
            before
        }
    }
}

/// `out` is an answer `parser` may give for a body that reads as `body`.
pub open spec fn answers<F: Fn(&str) -> Option<ReportFields>>(
    parser: F,
    body: Seq<char>,
    out: Option<ReportFields>,
) -> bool {
    exists|s: &str| s@ == body && #[trigger] call_ensures(parser, (s,), out)
}

/// The issues that read as reports, in order, given what the parser answered
/// for each issue: every issue whose author is not a bot and for whose body
/// the parser answered with a report, with that report.
pub open spec fn collected(raw: Seq<RawIssue>, outs: Seq<Option<ReportFields>>) -> Seq<(Seq<char>, u64, FieldsView)>
    decreases raw.len(),
{
    if raw.len() == 0 || outs.len() == 0 {
        Seq::empty()
    } else {
        let before = collected(raw.drop_last(), outs.drop_last());
        let i = raw.last();
        if !i.author.is_bot && outs.last() is Some {
            before.push((i.author.login@, i.number, outs.last()->Some_0@))
        } else {
            before
        }
    }
}

/// Reads every issue not opened by a bot with `parser`, once each and in
/// order, and keeps those it reads as a report, in order; a bot's issue is
/// never read.
pub fn parse_all<F: Fn(&str) -> Option<ReportFields>>(raw: &[RawIssue], parser: F) -> (r: Vec<ParsedIssue>)
    requires
        forall|s: &str| #[trigger] call_requires(parser, (s,)),
    ensures
        exists|outs: Seq<Option<ReportFields>>|
            {
                &&& outs.len() == raw@.len()
                &&& forall|i: int|
                    0 <= i < raw@.len() && !raw@[i].author.is_bot ==> #[trigger] answers(
                        parser,
                        raw@[i].body@,
                        outs[i],
                    )
                &&& r@.map_values(|p: ParsedIssue| p@) == collected(raw@, outs)
            },
{
    let mut out: Vec<ParsedIssue> = Vec::new();
    let ghost mut outs: Seq<Option<ReportFields>> = Seq::empty();
    let mut k: usize = 0;
    while k < raw.len()
        invariant
            k <= raw@.len(),
            forall|s: &str| #[trigger] call_requires(parser, (s,)),
            outs.len() == k,
            forall|i: int|
                0 <= i < k && !raw@[i].author.is_bot ==> #[trigger] answers(parser, raw@[i].body@, outs[i]),
            out@.map_values(|p: ParsedIssue| p@) == collected(raw@.take(k as int), outs),
        decreases raw@.len() - k,
    {
        let issue = &raw[k];
        let ghost before_outs = outs;
        assert(raw@.take(k + 1).drop_last() == raw@.take(k as int));
        if !issue.author.is_bot {
            let body: &str = issue.body.as_str();
            let answer = parser(body);
            proof {
                outs = outs.push(answer);
                assert(answers(parser, raw@[k as int].body@, answer));
                assert(outs.drop_last() == before_outs);
            }
            match answer {
                Some(fields) => {
                    let ghost before = out@;
                    let p = ParsedIssue {
                        author: issue.author.login.clone(),
                        issue_number: issue.number,
                        fields,
                    };
                    out.push(p);
                    assert(out@.map_values(|p: ParsedIssue| p@) == before.map_values(|p: ParsedIssue| p@).push(p@));
                },
                None => {},
            }
        } else {
            proof {
                outs = outs.push(None);
                assert(outs.drop_last() == before_outs);
            }
        }
        proof {
            assert forall|i: int| 0 <= i < k + 1 && !raw@[i].author.is_bot implies #[trigger] answers(parser, raw@[i].body@, outs[i]) by {
                if i < k {
                    assert(outs[i] == before_outs[i]);
                }
            }
        }
        k += 1;
    }
    assert(raw@.take(raw@.len() as int) == raw@);
    out
}

/// The issues read with the library's own issue-body reader: exactly the
/// issues not opened by a bot whose body names a title, in order, each with
/// what its body says.
pub fn read_issues(raw: &[RawIssue]) -> (r: Vec<ParsedIssue>)
    ensures
        r@.map_values(|p: ParsedIssue| p@) == parsed_issues(raw@),
{
    let r = parse_all(raw, parse_issue_body);
    proof {
        let outs = choose|outs: Seq<Option<ReportFields>>|
            {
                &&& outs.len() == raw@.len()
                &&& forall|i: int|
                    0 <= i < raw@.len() && !raw@[i].author.is_bot ==> #[trigger] answers(
                        parse_issue_body,
                        raw@[i].body@,
                        outs[i],
                    )
                &&& r@.map_values(|p: ParsedIssue| p@) == collected(raw@, outs)
            };
        lemma_collected_by_issue_reader(raw@, outs);
    }
    r
}

proof fn lemma_collected_by_issue_reader(raw: Seq<RawIssue>, outs: Seq<Option<ReportFields>>)
    requires
        outs.len() == raw.len(),
        forall|i: int|
            0 <= i < raw.len() && !raw[i].author.is_bot ==> #[trigger] answers(parse_issue_body, raw[i].body@, outs[i]),
    ensures
        collected(raw, outs) == parsed_issues(raw),
    decreases raw.len(),
{
    if raw.len() > 0 {
        let n = raw.len() - 1;
        assert forall|i: int|
            0 <= i < raw.drop_last().len() && !raw.drop_last()[i].author.is_bot implies #[trigger] answers(
                parse_issue_body,
                raw.drop_last()[i].body@,
                outs.drop_last()[i],
            ) by {
            assert(answers(parse_issue_body, raw[i].body@, outs[i]));
        }
        lemma_collected_by_issue_reader(raw.drop_last(), outs.drop_last());
        if !raw[n].author.is_bot {
            assert(answers(parse_issue_body, raw[n].body@, outs[n]));
            let s = choose|s: &str| s@ == raw[n].body@ && #[trigger] call_ensures(parse_issue_body, (s,), outs[n]);
            assert(call_ensures(parse_issue_body, (s,), outs[n]));
        }
    }
}

#[derive(Debug, Clone, Copy, PartialEq, Eq, Structural)]
pub enum EvidenceStrength {
    Moderate,
    Strong,
}

/// A title enough reporters vouch for, proposed at PARTIAL. Factors are order
/// keys ([`crate::speed`]); the share of clean runs is `clean_count` out of
/// `reporter_count`.
#[derive(Debug, Clone)]
pub struct ProfileProposal {
    pub identity: String,
    pub game_name: String,
    pub reporter_count: usize,
    pub clean_count: usize,
    pub factor_low: SpeedKey,
    pub factor_high: SpeedKey,
    pub suggested_max_speed: SpeedKey,
    pub evidence: EvidenceStrength,
}

pub struct ProposalView {
    pub identity: Seq<char>,
    pub game_name: Seq<char>,
    pub reporter_count: nat,
    pub clean_count: nat,
    pub factor_low: SpeedKey,
    pub factor_high: SpeedKey,
    pub suggested_max_speed: SpeedKey,
    pub evidence: EvidenceStrength,
}

impl View for ProfileProposal {
    type V = ProposalView;

    open spec fn view(&self) -> ProposalView {
        ProposalView {
            identity: self.identity@,
            game_name: self.game_name@,
            reporter_count: self.reporter_count as nat,
            clean_count: self.clean_count as nat,
            factor_low: self.factor_low,
            factor_high: self.factor_high,
            suggested_max_speed: self.suggested_max_speed,
            evidence: self.evidence,
        }
    }
}

/// A launch option enough distinct reporters propose for one title. Never
/// signed here: it reaches a user only once the maintainer signs it, and then
/// only when that user switches it on at Play.
#[derive(Debug, Clone)]
pub struct LaunchArgumentProposal {
    pub identity: String,
    pub game_name: String,
    pub launch_argument: String,
    pub reporter_count: usize,
    /// The flag the signed profile carries today, if it carries one.
    pub signed: Option<String>,
}

pub struct LaunchView {
    pub identity: Seq<char>,
    pub game_name: Seq<char>,
    pub launch_argument: Seq<char>,
    pub reporter_count: nat,
    pub signed: Option<Seq<char>>,
}

impl View for LaunchArgumentProposal {
    type V = LaunchView;

    open spec fn view(&self) -> LaunchView {
        LaunchView {
            identity: self.identity@,
            game_name: self.game_name@,
            launch_argument: self.launch_argument@,
            reporter_count: self.reporter_count as nat,
            signed: opt_view(self.signed),
        }
    }
}

/// Every report votes for its title.
pub open spec fn profile_ballots(rs: Seq<ParsedReport>) -> Seq<Ballot> {
    Seq::new(
        rs.len(),
        |i: int|
            Ballot {
                author: rs[i].author@,
                identity: rs[i].report.identity@,
                choice: Seq::empty(),
                number: rs[i].issue_number,
                counts: true,
            },
    )
}

/// The launch option a report proposes, as it is counted: trimmed, and only
/// when it is a switch.
pub open spec fn counted_launch_argument(r: ParsedReport) -> Option<Seq<char>> {
    kept_launch_argument(opt_view(r.report.launch_argument))
}

/// A report votes for its title and its launch option, when it proposes one.
pub open spec fn launch_ballots(rs: Seq<ParsedReport>) -> Seq<Ballot> {
    Seq::new(
        rs.len(),
        |i: int|
            Ballot {
                author: rs[i].author@,
                identity: rs[i].report.identity@,
                choice: match counted_launch_argument(rs[i]) {
                    Some(a) => a,
                    None => Seq::empty(),
                },
                number: rs[i].issue_number,
                counts: counted_launch_argument(rs[i]) is Some,
            },
    )
}

/// How many of the votes are clean runs.
pub open spec fn clean_votes(rs: Seq<ParsedReport>, g: Seq<int>) -> nat
    decreases g.len(),
{
    if g.len() == 0 {
        0
    } else {
        clean_votes(rs, g.drop_last()) + if rs[g.last()].report.outcome == SessionOutcome::CleanUnload {
            1nat
        } else {
            0nat
        }
    }
}

/// The lowest minimum factor of the votes.
pub open spec fn low_of(rs: Seq<ParsedReport>, g: Seq<int>) -> SpeedKey
    decreases g.len(),
{
    if g.len() == 0 {
        INFINITY_SPEED
    } else {
        min_key(low_of(rs, g.drop_last()), rs[g.last()].report.factor_min)
    }
}

/// The highest maximum factor of the votes, never below zero.
pub open spec fn high_of(rs: Seq<ParsedReport>, g: Seq<int>) -> SpeedKey
    decreases g.len(),
{
    if g.len() == 0 {
        ZERO_SPEED
    } else {
        max_key(high_of(rs, g.drop_last()), rs[g.last()].report.factor_max)
    }
}

/// The common factors of the votes.
pub open spec fn commons_of(rs: Seq<ParsedReport>, g: Seq<int>) -> Seq<SpeedKey> {
    g.map_values(|i: int| rs[i].report.factor_common)
}

/// The median common factor: the one at half the count in ascending order.
pub open spec fn median_of(rs: Seq<ParsedReport>, g: Seq<int>) -> SpeedKey {
    commons_of(rs, g).sort_by(|a: i64, b: i64| a <= b)[g.len() as int / 2]
}

/// The name a group of votes gives its title: the first one a reporter
/// filled in.
pub open spec fn name_of(rs: Seq<ParsedReport>, g: Seq<int>) -> Seq<char>
    decreases g.len(),
{
    if g.len() == 0 {
        "(unnamed)"@
    } else if rs[g[0]].report.game_name@.len() > 0 {
        rs[g[0]].report.game_name@
    } else {
        name_of(rs, g.drop_first())
    }
}

/// How the catalogue is asked about a group: by its first vote's report.
pub open spec fn sample_query(rs: Seq<ParsedReport>, g: Seq<int>) -> Query {
    let r = rs[g[0]].report;
    Query { store: r.store@, store_id: r.store_id@, exe: r.exe@ }
}

/// Strong: at least [`STRONG_REPORTERS`] and nine tenths clean; moderate:
/// seven tenths clean; else none.
pub open spec fn evidence_of(count: nat, clean: nat) -> Option<EvidenceStrength> {
    if count >= STRONG_REPORTERS && 10 * clean >= STRONG_CLEAN_TENTHS * count {
        Some(EvidenceStrength::Strong)
    } else if 10 * clean >= MODERATE_CLEAN_TENTHS * count {
        Some(EvidenceStrength::Moderate)
    } else {
        None
    }
}

/// The proposal for a title, when its evidence meets the bar: not blocked,
/// not already verified, at least [`MIN_REPORTERS`] reporters, at least
/// moderate evidence. The suggested ceiling is the median common factor,
/// raised to what the catalogue already grants, held between the lowest and
/// highest speed ever suggested.
pub open spec fn profile_proposal(rs: Seq<ParsedReport>, ps: Seq<crate::profiles_lite::Profile>, id: Seq<char>) -> Option<ProposalView> {
    let g = group(profile_ballots(rs), (id, Seq::<char>::empty()));
    if g.len() == 0 {
        None
    } else {
        let lk = lookup_of(ps, sample_query(rs, g));
        let count = g.len();
        let clean = clean_votes(rs, g);
        if lk.blocked || lk.verified || count < MIN_REPORTERS {
            None
        } else {
            match evidence_of(count, clean) {
                None => None,
                Some(evidence) => Some(ProposalView {
                    identity: id,
                    game_name: name_of(rs, g),
                    reporter_count: count,
                    clean_count: clean,
                    factor_low: low_of(rs, g),
                    factor_high: high_of(rs, g),
                    suggested_max_speed: clamp_key(
                        max_key(median_of(rs, g), lk.existing_ceiling),
                        MIN_SPEED,
                        MAX_SPEED,
                    ),
                    evidence,
                }),
            }
        }
    }
}

/// The launch option proposal for a title and a switch: at least
/// [`MIN_LAUNCH_ARG_REPORTERS`] votes, a title the catalogue does not block,
/// a switch other than the one its entry already carries.
pub open spec fn launch_proposal(
    rs: Seq<ParsedReport>,
    ps: Seq<crate::profiles_lite::Profile>,
    id: Seq<char>,
    arg: Seq<char>,
) -> Option<LaunchView> {
    let g = group(launch_ballots(rs), (id, arg));
    if g.len() < MIN_LAUNCH_ARG_REPORTERS {
        None
    } else {
        let lk = lookup_of(ps, sample_query(rs, g));
        if lk.blocked || lk.signed_launch_argument == Some(arg) {
            None
        } else {
            Some(LaunchView {
                identity: id,
                game_name: name_of(rs, g),
                launch_argument: arg,
                reporter_count: g.len(),
                signed: lk.signed_launch_argument,
            })
        }
    }
}


fn profile_ballot_boxes(reports: &[ParsedReport]) -> (r: Vec<BallotBox>)
    ensures
        ballots_view(r@) == profile_ballots(reports@),
{
    let mut r: Vec<BallotBox> = Vec::new();
    let mut i: usize = 0;
    while i < reports.len()
        invariant
            i <= reports@.len(),
            r@.len() == i,
            forall|k: int| 0 <= k < i ==> #[trigger] r@[k]@ == profile_ballots(reports@)[k],
        decreases reports@.len() - i,
    {
        let rep = &reports[i];
        r.push(BallotBox {
            author: chars_of(rep.author.as_str()),
            identity: chars_of(rep.report.identity.as_str()),
            choice: Vec::new(),
            number: rep.issue_number,
            counts: true,
        });
        i += 1;
    }
    assert(ballots_view(r@) =~= profile_ballots(reports@));
    r
}

fn launch_ballot_boxes(reports: &[ParsedReport]) -> (r: Vec<BallotBox>)
    ensures
        ballots_view(r@) == launch_ballots(reports@),
{
    let mut r: Vec<BallotBox> = Vec::new();
    let mut i: usize = 0;
    while i < reports.len()
        invariant
            i <= reports@.len(),
            r@.len() == i,
            forall|k: int| 0 <= k < i ==> #[trigger] r@[k]@ == launch_ballots(reports@)[k],
        decreases reports@.len() - i,
    {
        let rep = &reports[i];
        let arg = match &rep.report.launch_argument {
            Some(raw) => clean_launch_chars(&chars_of(raw.as_str())),
            None => None,
        };
        let (choice, counts) = match arg {
            Some(a) => (chars_of(a.as_str()), true),
            None => (Vec::new(), false),
        };
        r.push(BallotBox {
            author: chars_of(rep.author.as_str()),
            identity: chars_of(rep.report.identity.as_str()),
            choice,
            number: rep.issue_number,
            counts,
        });
        i += 1;
    }
    assert(ballots_view(r@) =~= launch_ballots(reports@));
    r
}

fn count_clean(reports: &[ParsedReport], g: &Vec<usize>) -> (r: usize)
    requires
        forall|k: int| 0 <= k < g@.len() ==> #[trigger] g@[k] < reports@.len(),
    ensures
        r == clean_votes(reports@, indices(g@)),
{
    let ghost gi = indices(g@);
    let mut n: usize = 0;
    let mut m: usize = 0;
    assert(gi.take(0) == Seq::<int>::empty());
    while m < g.len()
        invariant
            m <= g@.len(),
            gi == indices(g@),
            forall|k: int| 0 <= k < g@.len() ==> #[trigger] g@[k] < reports@.len(),
            n <= m,
            n == clean_votes(reports@, gi.take(m as int)),
        decreases g@.len() - m,
    {
        assert(gi.take(m + 1).drop_last() == gi.take(m as int));
        if reports[g[m]].report.outcome == SessionOutcome::CleanUnload {
            n += 1;
        }
        m += 1;
    }
    assert(gi.take(g@.len() as int) == gi);
    n
}

fn lowest_min(reports: &[ParsedReport], g: &Vec<usize>) -> (r: SpeedKey)
    requires
        forall|k: int| 0 <= k < g@.len() ==> #[trigger] g@[k] < reports@.len(),
    ensures
        r == low_of(reports@, indices(g@)),
{
    let ghost gi = indices(g@);
    let mut low: SpeedKey = INFINITY_SPEED;
    let mut m: usize = 0;
    assert(gi.take(0) == Seq::<int>::empty());
    while m < g.len()
        invariant
            m <= g@.len(),
            gi == indices(g@),
            forall|k: int| 0 <= k < g@.len() ==> #[trigger] g@[k] < reports@.len(),
            low == low_of(reports@, gi.take(m as int)),
        decreases g@.len() - m,
    {
        assert(gi.take(m + 1).drop_last() == gi.take(m as int));
        let f = reports[g[m]].report.factor_min;
        if f < low {
            low = f;
        }
        m += 1;
    }
    assert(gi.take(g@.len() as int) == gi);
    low
}

fn highest_max(reports: &[ParsedReport], g: &Vec<usize>) -> (r: SpeedKey)
    requires
        forall|k: int| 0 <= k < g@.len() ==> #[trigger] g@[k] < reports@.len(),
    ensures
        r == high_of(reports@, indices(g@)),
{
    let ghost gi = indices(g@);
    let mut high: SpeedKey = ZERO_SPEED;
    let mut m: usize = 0;
    assert(gi.take(0) == Seq::<int>::empty());
    while m < g.len()
        invariant
            m <= g@.len(),
            gi == indices(g@),
            forall|k: int| 0 <= k < g@.len() ==> #[trigger] g@[k] < reports@.len(),
            high == high_of(reports@, gi.take(m as int)),
        decreases g@.len() - m,
    {
        assert(gi.take(m + 1).drop_last() == gi.take(m as int));
        let f = reports[g[m]].report.factor_max;
        if f > high {
            high = f;
        }
        m += 1;
    }
    assert(gi.take(g@.len() as int) == gi);
    high
}

fn median_common(reports: &[ParsedReport], g: &Vec<usize>) -> (r: SpeedKey)
    requires
        g@.len() > 0,
        forall|k: int| 0 <= k < g@.len() ==> #[trigger] g@[k] < reports@.len(),
    ensures
        r == median_of(reports@, indices(g@)),
{
    let mut commons: Vec<i64> = Vec::new();
    let mut m: usize = 0;
    while m < g.len()
        invariant
            m <= g@.len(),
            forall|k: int| 0 <= k < g@.len() ==> #[trigger] g@[k] < reports@.len(),
            commons@.len() == m,
            forall|k: int| 0 <= k < m ==> #[trigger] commons@[k] == reports@[g@[k] as int].report.factor_common,
        decreases g@.len() - m,
    {
        commons.push(reports[g[m]].report.factor_common);
        m += 1;
    }
    assert(commons@ =~= commons_of(reports@, indices(g@)));
    let sorted = sort_keys(&commons);
    sorted[g.len() / 2]
}

/// The first name a reporter filled in among the votes, else `(unnamed)`.
fn first_name(reports: &[ParsedReport], g: &Vec<usize>) -> (r: String)
    requires
        forall|k: int| 0 <= k < g@.len() ==> #[trigger] g@[k] < reports@.len(),
    ensures
        r@ == name_of(reports@, indices(g@)),
{
    let ghost gi = indices(g@);
    let mut m: usize = 0;
    assert(gi.skip(0) == gi);
    while m < g.len()
        invariant
            m <= g@.len(),
            gi == indices(g@),
            forall|k: int| 0 <= k < g@.len() ==> #[trigger] g@[k] < reports@.len(),
            name_of(reports@, gi) == name_of(reports@, gi.skip(m as int)),
        decreases g@.len() - m,
    {
        let name = &reports[g[m]].report.game_name;
        assert(gi.skip(m as int)[0] == g@[m as int] as int);
        assert(gi.skip(m as int).drop_first() == gi.skip(m + 1));
        let v = chars_of(name.as_str());
        if v.len() > 0 {
            return name.clone();
        }
        m += 1;
    }
    assert(gi.skip(g@.len() as int) == Seq::<int>::empty());
    let mut out: Vec<char> = Vec::new();
    append_str(&mut out, "(unnamed)");
    string_of(&out)
}

fn evidence(count: usize, clean: usize) -> (r: Option<EvidenceStrength>)
    ensures
        r == evidence_of(count as nat, clean as nat),
{
    let c = clean as u128;
    let n = count as u128;
    assert(c <= 0xffff_ffff_ffff_ffff && n <= 0xffff_ffff_ffff_ffff);
    let strong = STRONG_CLEAN_TENTHS as u128;
    let moderate = MODERATE_CLEAN_TENTHS as u128;
    if count >= STRONG_REPORTERS && 10 * c >= strong * n {
        Some(EvidenceStrength::Strong)
    } else if 10 * c >= moderate * n {
        Some(EvidenceStrength::Moderate)
    } else {
        None
    }
}

/// The proposal of one group of votes for a title.
fn propose_for_group(reports: &[ParsedReport], db: &Db, g: &Vec<usize>) -> (r: Option<ProfileProposal>)
    requires
        g@.len() > 0,
        forall|k: int| 0 <= k < g@.len() ==> #[trigger] g@[k] < reports@.len(),
        indices(g@) == group(
            profile_ballots(reports@),
            (reports@[g@[0] as int].report.identity@, Seq::<char>::empty()),
        ),
    ensures
        match r {
            Some(p) => profile_proposal(reports@, db.entries(), reports@[g@[0] as int].report.identity@)
                == Some(p@),
            None => profile_proposal(reports@, db.entries(), reports@[g@[0] as int].report.identity@) is None,
        },
{
    let sample = &reports[g[0]].report;
    let lk = db.lookup(sample.store.as_str(), sample.store_id.as_str(), sample.exe.as_str());
    let count = g.len();
    if lk.blocked || lk.verified || count < MIN_REPORTERS {
        return None;
    }
    let clean = count_clean(reports, g);
    let ev = match evidence(count, clean) {
        Some(e) => e,
        None => {
            return None;
        },
    };
    let median = median_common(reports, g);
    let raised = if median >= lk.existing_ceiling { median } else { lk.existing_ceiling };
    let suggested = if raised < MIN_SPEED {
        MIN_SPEED
    } else if raised > MAX_SPEED {
        MAX_SPEED
    } else {
        raised
    };
    Some(ProfileProposal {
        identity: sample.identity.clone(),
        game_name: first_name(reports, g),
        reporter_count: count,
        clean_count: clean,
        factor_low: lowest_min(reports, g),
        factor_high: highest_max(reports, g),
        suggested_max_speed: suggested,
        evidence: ev,
    })
}


/// Turns reports into PARTIAL proposals, one per title whose evidence meets
/// the bar, ordered by title.
pub fn aggregate(reports: &[ParsedReport], db: &Db) -> (r: Vec<ProfileProposal>)
    ensures
        forall|k: int| 0 <= k < r@.len() ==> profile_proposal(reports@, db.entries(), #[trigger] r@[k].identity@)
            == Some(r@[k]@),
        forall|a: int, b: int| 0 <= a < b < r@.len() ==> lex_lt(#[trigger] r@[a].identity@, #[trigger] r@[b].identity@),
        forall|id: Seq<char>| #[trigger] profile_proposal(reports@, db.entries(), id) is Some ==> exists|k: int|
            0 <= k < r@.len() && r@[k].identity@ == id,
{
    let bs = profile_ballot_boxes(reports);
    let groups = groups_in_order(&bs);
    let ghost v = ballots_view(bs@);
    let ghost rs = reports@;
    let ghost e = Seq::<char>::empty();
    let mut out: Vec<ProfileProposal> = Vec::new();
    let ghost mut src: Seq<int> = Seq::empty();
    let mut j: usize = 0;
    proof {
        lemma_lex_order(e, e, e);
    }
    while j < groups.len()
        invariant
            j <= groups@.len(),
            v == ballots_view(bs@),
            v == profile_ballots(rs),
            rs == reports@,
            e == Seq::<char>::empty(),
            !lex_lt(e, e),
            forall|k: int| 0 <= k < groups@.len() ==> #[trigger] groups@[k]@.len() > 0 && groups@[k]@[0] < bs@.len()
                && indices(groups@[k]@) == group(v, key_of(v, groups@[k]@[0] as int)),
            forall|a: int, b: int| 0 <= a < b < groups@.len() ==> key_lt(
                key_of(v, #[trigger] groups@[a]@[0] as int),
                key_of(v, #[trigger] groups@[b]@[0] as int),
            ),
            bs@.len() == rs.len(),
            src.len() == out@.len(),
            forall|k: int| 0 <= k < src.len() ==> 0 <= #[trigger] src[k] < j,
            forall|a: int, b: int| 0 <= a < b < src.len() ==> #[trigger] src[a] < #[trigger] src[b],
            forall|k: int| 0 <= k < out@.len() ==> #[trigger] out@[k].identity@ == v[groups@[src[k]]@[0] as int].identity,
            forall|k: int| 0 <= k < out@.len() ==> profile_proposal(rs, db.entries(), #[trigger] out@[k].identity@)
                == Some(out@[k]@),
            forall|m: int| 0 <= m < j && #[trigger] profile_proposal(rs, db.entries(), v[groups@[m]@[0] as int].identity) is Some
                ==> exists|k: int| 0 <= k < out@.len() && out@[k].identity@ == v[groups@[m]@[0] as int].identity,
        decreases groups@.len() - j,
    {
        let g = &groups[j];
        proof {
            assert(groups@[j as int]@.len() > 0);
            let f = g@[0] as int;
            assert(v[f].choice == e);
            assert(key_of(v, f) == (rs[f].report.identity@, e));
            assert forall|k: int| 0 <= k < g@.len() implies #[trigger] g@[k] < reports@.len() by {
                lemma_group_upto(v, key_of(v, f), v.len() as int);
                assert(indices(g@)[k] == g@[k] as int);
            }
        }
        let ghost f = g@[0] as int;
        let ghost id = v[f].identity;
        match propose_for_group(reports, db, g) {
            Some(p) => {
                let ghost before = out@;
                let ghost before_src = src;
                out.push(p);
                proof {
                    src = src.push(j as int);
                    assert(out@[out@.len() - 1] == p);
                    assert(profile_proposal(rs, db.entries(), id) == Some(p@));
                    assert(out@[out@.len() - 1].identity@ == id);
                    assert(src[src.len() - 1] == j);
                    assert(groups@[j as int] == *g);
                    assert(v[groups@[src[src.len() - 1]]@[0] as int].identity == id);
                    assert forall|k: int| 0 <= k < out@.len() implies profile_proposal(rs, db.entries(), #[trigger] out@[k].identity@)
                        == Some(out@[k]@) by {
                        if k < before.len() {
                            assert(out@[k] == before[k]);
                            assert(profile_proposal(rs, db.entries(), before[k].identity@) == Some(before[k]@));
                        } else {
                            assert(k == out@.len() - 1);
                        }
                    }
                    assert forall|k: int| 0 <= k < out@.len() implies #[trigger] out@[k].identity@ == v[groups@[src[k]]@[0] as int].identity by {
                        if k < before.len() {
                            assert(out@[k] == before[k]);
                            assert(src[k] == before_src[k]);
                            assert(before[k].identity@ == v[groups@[before_src[k]]@[0] as int].identity);
                        } else {
                            assert(k == out@.len() - 1);
                        }
                    }
                    assert forall|m: int| 0 <= m < j + 1 && #[trigger] profile_proposal(rs, db.entries(), v[groups@[m]@[0] as int].identity) is Some
                        implies exists|k: int| 0 <= k < out@.len() && out@[k].identity@ == v[groups@[m]@[0] as int].identity by {
                        if m == j {
                            assert(out@[out@.len() - 1].identity@ == v[groups@[m]@[0] as int].identity);
                        } else {
                            let k = choose|k: int| 0 <= k < before.len() && before[k].identity@ == v[groups@[m]@[0] as int].identity;
                            assert(out@[k] == before[k]);
                        }
                    }
                }
            },
            None => {
                proof {
                    assert(groups@[j as int] == *g);
                    assert(profile_proposal(rs, db.entries(), id) is None);
                    assert(forall|k: int| 0 <= k < out@.len() ==> #[trigger] out@[k].identity@ == v[groups@[src[k]]@[0] as int].identity);
                }
            },
        }
        j += 1;
    }
    proof {
        assert forall|a: int, b: int| 0 <= a < b < out@.len() implies lex_lt(#[trigger] out@[a].identity@, #[trigger] out@[b].identity@) by {
            assert(src[a] < src[b]);
            assert(0 <= src[a] && src[b] < groups@.len());
            assert(groups@[src[a]]@.len() > 0 && groups@[src[b]]@.len() > 0);
            let ga = groups@[src[a]]@[0] as int;
            let gb = groups@[src[b]]@[0] as int;
            assert(key_lt(key_of(v, ga), key_of(v, gb)));
            assert(v[ga].choice == e && v[gb].choice == e);
        }
        assert forall|id: Seq<char>| #[trigger] profile_proposal(reports@, db.entries(), id) is Some implies exists|k: int|
            0 <= k < out@.len() && out@[k].identity@ == id by {
            let key = (id, e);
            let gr = group(v, key);
            assert(gr.len() > 0);
            lemma_group_upto(v, key, v.len() as int);
            let x = gr[0];
            assert(in_group(v, key, x));
            assert(is_latest(v, x));
            let m = choose|m: int| 0 <= m < groups@.len() && key_of(v, #[trigger] groups@[m]@[0] as int) == key_of(v, x);
            assert(groups@[m]@.len() > 0);
            assert(v[groups@[m]@[0] as int].identity == id);
            assert(profile_proposal(rs, db.entries(), v[groups@[m]@[0] as int].identity) is Some);
        }
        assert forall|k: int| 0 <= k < out@.len() implies profile_proposal(reports@, db.entries(), #[trigger] out@[k].identity@)
            == Some(out@[k]@) by {
            assert(profile_proposal(rs, db.entries(), out@[k].identity@) == Some(out@[k]@));
        }
    }
    out
}

/// The launch-option proposal of one group of votes for a title and a switch.
fn propose_launch_for_group(reports: &[ParsedReport], db: &Db, g: &Vec<usize>, arg: &Vec<char>) -> (r: Option<LaunchArgumentProposal>)
    requires
        g@.len() > 0,
        forall|k: int| 0 <= k < g@.len() ==> #[trigger] g@[k] < reports@.len(),
        indices(g@) == group(launch_ballots(reports@), (reports@[g@[0] as int].report.identity@, arg@)),
    ensures
        match r {
            Some(p) => launch_proposal(reports@, db.entries(), reports@[g@[0] as int].report.identity@, arg@)
                == Some(p@),
            None => launch_proposal(reports@, db.entries(), reports@[g@[0] as int].report.identity@, arg@) is None,
        },
{
    let count = g.len();
    if count < MIN_LAUNCH_ARG_REPORTERS {
        return None;
    }
    let sample = &reports[g[0]].report;
    let lk = db.lookup(sample.store.as_str(), sample.store_id.as_str(), sample.exe.as_str());
    if lk.blocked {
        return None;
    }
    let arg_text = string_of(arg);
    let same = match &lk.signed_launch_argument {
        Some(s) => crate::text::same_text(s.as_str(), arg_text.as_str()),
        None => false,
    };
    if same {
        return None;
    }
    Some(LaunchArgumentProposal {
        identity: sample.identity.clone(),
        game_name: first_name(reports, g),
        launch_argument: arg_text,
        reporter_count: count,
        signed: lk.signed_launch_argument,
    })
}

/// Launch options proposed by at least [`MIN_LAUNCH_ARG_REPORTERS`] distinct
/// reporters for one title: one vote per (author, title), the author's newest
/// report that carries one; the exact spelling is the unit (whether a game
/// reads `-NoLogo` as `-nologo` is its own business); BLOCKED is never touched;
/// the flag the catalogue already carries is not news. Ordered by title, then
/// by option.
pub fn propose_launch_arguments(reports: &[ParsedReport], db: &Db) -> (r: Vec<LaunchArgumentProposal>)
    ensures
        forall|k: int| 0 <= k < r@.len() ==> launch_proposal(reports@, db.entries(), #[trigger] r@[k].identity@, r@[k].launch_argument@)
            == Some(r@[k]@),
        forall|a: int, b: int| 0 <= a < b < r@.len() ==> key_lt(
            (#[trigger] r@[a].identity@, r@[a].launch_argument@),
            (#[trigger] r@[b].identity@, r@[b].launch_argument@),
        ),
        forall|id: Seq<char>, arg: Seq<char>| #[trigger] launch_proposal(reports@, db.entries(), id, arg) is Some
            ==> exists|k: int| 0 <= k < r@.len() && r@[k].identity@ == id && r@[k].launch_argument@ == arg,
{
    let bs = launch_ballot_boxes(reports);
    let groups = groups_in_order(&bs);
    let ghost v = ballots_view(bs@);
    let ghost rs = reports@;
    let mut out: Vec<LaunchArgumentProposal> = Vec::new();
    let ghost mut src: Seq<int> = Seq::empty();
    let mut j: usize = 0;
    while j < groups.len()
        invariant
            j <= groups@.len(),
            v == ballots_view(bs@),
            v == launch_ballots(rs),
            rs == reports@,
            forall|k: int| 0 <= k < groups@.len() ==> #[trigger] groups@[k]@.len() > 0 && groups@[k]@[0] < bs@.len()
                && indices(groups@[k]@) == group(v, key_of(v, groups@[k]@[0] as int)),
            forall|a: int, b: int| 0 <= a < b < groups@.len() ==> key_lt(
                key_of(v, #[trigger] groups@[a]@[0] as int),
                key_of(v, #[trigger] groups@[b]@[0] as int),
            ),
            bs@.len() == rs.len(),
            src.len() == out@.len(),
            forall|k: int| 0 <= k < src.len() ==> 0 <= #[trigger] src[k] < j,
            forall|a: int, b: int| 0 <= a < b < src.len() ==> #[trigger] src[a] < #[trigger] src[b],
            forall|k: int| 0 <= k < out@.len() ==> (#[trigger] out@[k].identity@, out@[k].launch_argument@)
                == key_of(v, groups@[src[k]]@[0] as int),
            forall|k: int| 0 <= k < out@.len() ==> launch_proposal(rs, db.entries(), #[trigger] out@[k].identity@, out@[k].launch_argument@)
                == Some(out@[k]@),
            forall|m: int| 0 <= m < j && #[trigger] launch_proposal(rs, db.entries(), key_of(v, groups@[m]@[0] as int).0, key_of(v, groups@[m]@[0] as int).1) is Some
                ==> exists|k: int| 0 <= k < out@.len() && (out@[k].identity@, out@[k].launch_argument@) == key_of(v, groups@[m]@[0] as int),
        decreases groups@.len() - j,
    {
        let g = &groups[j];
        let first = g[0];
        let arg = &bs[first].choice;
        proof {
            assert(groups@[j as int]@.len() > 0);
            let f = g@[0] as int;
            assert(key_of(v, f) == (rs[f].report.identity@, arg@));
            assert forall|k: int| 0 <= k < g@.len() implies #[trigger] g@[k] < reports@.len() by {
                lemma_group_upto(v, key_of(v, f), v.len() as int);
                assert(indices(g@)[k] == g@[k] as int);
            }
        }
        let ghost key = key_of(v, g@[0] as int);
        match propose_launch_for_group(reports, db, g, arg) {
            Some(p) => {
                let ghost before = out@;
                let ghost before_src = src;
                out.push(p);
                proof {
                    src = src.push(j as int);
                    assert(out@[out@.len() - 1] == p);
                    assert(src[src.len() - 1] == j);
                    assert(groups@[j as int] == *g);
                    assert((out@[out@.len() - 1].identity@, out@[out@.len() - 1].launch_argument@) == key);
                    assert forall|k: int| 0 <= k < out@.len() implies launch_proposal(rs, db.entries(), #[trigger] out@[k].identity@, out@[k].launch_argument@)
                        == Some(out@[k]@) by {
                        if k < before.len() {
                            assert(out@[k] == before[k]);
                        }
                    }
                    assert forall|k: int| 0 <= k < out@.len() implies (#[trigger] out@[k].identity@, out@[k].launch_argument@)
                        == key_of(v, groups@[src[k]]@[0] as int) by {
                        if k < before.len() {
                            assert(out@[k] == before[k]);
                            assert(src[k] == before_src[k]);
                        }
                    }
                    assert forall|m: int| 0 <= m < j + 1 && #[trigger] launch_proposal(rs, db.entries(), key_of(v, groups@[m]@[0] as int).0, key_of(v, groups@[m]@[0] as int).1) is Some
                        implies exists|k: int| 0 <= k < out@.len() && (out@[k].identity@, out@[k].launch_argument@) == key_of(v, groups@[m]@[0] as int) by {
                        if m == j {
                            assert((out@[out@.len() - 1].identity@, out@[out@.len() - 1].launch_argument@) == key_of(v, groups@[m]@[0] as int));
                        } else {
                            let k = choose|k: int| 0 <= k < before.len() && (before[k].identity@, before[k].launch_argument@) == key_of(v, groups@[m]@[0] as int);
                            assert(out@[k] == before[k]);
                        }
                    }
                }
            },
            None => {
                proof {
                    assert(launch_proposal(rs, db.entries(), key.0, key.1) is None);
                }
            },
        }
        j += 1;
    }
    proof {
        assert forall|a: int, b: int| 0 <= a < b < out@.len() implies key_lt(
            (#[trigger] out@[a].identity@, out@[a].launch_argument@),
            (#[trigger] out@[b].identity@, out@[b].launch_argument@),
        ) by {
            assert(src[a] < src[b]);
            assert(0 <= src[a] && src[b] < groups@.len());
            assert(groups@[src[a]]@.len() > 0 && groups@[src[b]]@.len() > 0);
            let ga = groups@[src[a]]@[0] as int;
            let gb = groups@[src[b]]@[0] as int;
            assert(key_lt(key_of(v, ga), key_of(v, gb)));
        }
        assert forall|id: Seq<char>, arg: Seq<char>| #[trigger] launch_proposal(reports@, db.entries(), id, arg) is Some
            implies exists|k: int| 0 <= k < out@.len() && out@[k].identity@ == id && out@[k].launch_argument@ == arg by {
            let key = (id, arg);
            let gr = group(v, key);
            assert(gr.len() > 0);
            lemma_group_upto(v, key, v.len() as int);
            let x = gr[0];
            assert(in_group(v, key, x));
            assert(is_latest(v, x));
            let m = choose|m: int| 0 <= m < groups@.len() && key_of(v, #[trigger] groups@[m]@[0] as int) == key_of(v, x);
            assert(groups@[m]@.len() > 0);
            assert(key_of(v, groups@[m]@[0] as int) == key);
            assert(launch_proposal(rs, db.entries(), key_of(v, groups@[m]@[0] as int).0, key_of(v, groups@[m]@[0] as int).1) is Some);
            let k = choose|k: int| 0 <= k < out@.len() && (out@[k].identity@, out@[k].launch_argument@) == key_of(v, groups@[m]@[0] as int);
            assert(out@[k].identity@ == id && out@[k].launch_argument@ == arg);
        }
    }
    out
}


/// One launch vote per reporter and title: across every option proposed for
/// a title, a reporter's vote goes to one option only, and it is the vote of
/// their newest report for that title that proposes a switch.
pub proof fn lemma_one_launch_vote_per_reporter(rs: Seq<ParsedReport>, id: Seq<char>, a1: Seq<char>, a2: Seq<char>)
    ensures
        ({
            let g1 = group(launch_ballots(rs), (id, a1));
            let g2 = group(launch_ballots(rs), (id, a2));
            a1 != a2 ==> forall|x: int, y: int|
                0 <= x < g1.len() && 0 <= y < g2.len() ==> rs[#[trigger] g1[x]].author@ != rs[#[trigger] g2[y]].author@
        }),
        ({
            let g1 = group(launch_ballots(rs), (id, a1));
            forall|m: int| 0 <= m < g1.len() ==> {
                &&& 0 <= #[trigger] g1[m] < rs.len()
                &&& rs[g1[m]].report.identity@ == id
                &&& counted_launch_argument(rs[g1[m]]) == Some(a1)
            }
        }),
        ({
            let g1 = group(launch_ballots(rs), (id, a1));
            forall|m: int, j: int|
                0 <= m < g1.len() && 0 <= j < rs.len() && rs[j].author@ == rs[#[trigger] g1[m]].author@
                    && (#[trigger] rs[j]).report.identity@ == id && counted_launch_argument(rs[j]) is Some
                    ==> rs[j].issue_number <= rs[g1[m]].issue_number
        }),
{
    let v = launch_ballots(rs);
    let g1 = group(v, (id, a1));
    let g2 = group(v, (id, a2));
    lemma_group_upto(v, (id, a1), v.len() as int);
    lemma_group_upto(v, (id, a2), v.len() as int);
    if a1 != a2 {
        assert forall|x: int, y: int| 0 <= x < g1.len() && 0 <= y < g2.len() implies rs[#[trigger] g1[x]].author@
            != rs[#[trigger] g2[y]].author@ by {
            let p = g1[x];
            let q = g2[y];
            assert(in_group(v, (id, a1), p) && in_group(v, (id, a2), q));
            if rs[p].author@ == rs[q].author@ {
                assert(same_slot(v[q], v[p]));
                assert(same_slot(v[p], v[q]));
                assert(p == q);
            }
        }
    }
    assert forall|m: int| 0 <= m < g1.len() implies {
        &&& 0 <= #[trigger] g1[m] < rs.len()
        &&& rs[g1[m]].report.identity@ == id
        &&& counted_launch_argument(rs[g1[m]]) == Some(a1)
    } by {
        assert(in_group(v, (id, a1), g1[m]));
    }
    assert forall|m: int, j: int|
        0 <= m < g1.len() && 0 <= j < rs.len() && rs[j].author@ == rs[#[trigger] g1[m]].author@
            && (#[trigger] rs[j]).report.identity@ == id && counted_launch_argument(rs[j]) is Some
            implies rs[j].issue_number <= rs[g1[m]].issue_number by {
        let p = g1[m];
        assert(in_group(v, (id, a1), p));
        assert(same_slot(v[j], v[p]));
        assert(v[j].counts);
    }
}

/// A title's proposal counts each reporter's newest report for it: every
/// report it counts names the title, and no report by the same reporter for
/// the same title has a higher number.
pub proof fn lemma_newest_report_counts(rs: Seq<ParsedReport>, id: Seq<char>)
    ensures
        ({
            let g = group(profile_ballots(rs), (id, Seq::<char>::empty()));
            &&& forall|m: int| 0 <= m < g.len() ==> 0 <= #[trigger] g[m] < rs.len() && rs[g[m]].report.identity@ == id
            &&& forall|m: int, j: int|
                0 <= m < g.len() && 0 <= j < rs.len() && rs[j].author@ == rs[#[trigger] g[m]].author@
                    && (#[trigger] rs[j]).report.identity@ == id ==> rs[j].issue_number <= rs[g[m]].issue_number
        }),
{
    let v = profile_ballots(rs);
    let key = (id, Seq::<char>::empty());
    let g = group(v, key);
    assert(forall|m: int| 0 <= m < g.len() ==> 0 <= #[trigger] g[m] < rs.len() && rs[g[m]].report.identity@ == id) by {
        lemma_group_upto(v, key, v.len() as int);
        assert forall|m: int| 0 <= m < g.len() implies 0 <= #[trigger] g[m] < rs.len() && rs[g[m]].report.identity@ == id by {
            assert(in_group(v, key, g[m]));
        }
    }
    assert(forall|m: int, j: int|
        0 <= m < g.len() && 0 <= j < rs.len() && rs[j].author@ == rs[#[trigger] g[m]].author@
            && (#[trigger] rs[j]).report.identity@ == id ==> rs[j].issue_number <= rs[g[m]].issue_number) by {
        lemma_group_upto(v, key, v.len() as int);
        assert forall|m: int, j: int|
            0 <= m < g.len() && 0 <= j < rs.len() && rs[j].author@ == rs[#[trigger] g[m]].author@
                && (#[trigger] rs[j]).report.identity@ == id implies rs[j].issue_number <= rs[g[m]].issue_number by {
            let p = g[m];
            assert(in_group(v, key, p));
            assert(same_slot(v[j], v[p]));
        }
    }
}

/// Every reporter of a title is counted: some report the title's proposal
/// counts comes from them.
pub proof fn lemma_every_reporter_counts(rs: Seq<ParsedReport>, id: Seq<char>, j: int)
    requires
        0 <= j < rs.len(),
        rs[j].report.identity@ == id,
    ensures
        ({
            let g = group(profile_ballots(rs), (id, Seq::<char>::empty()));
            exists|m: int| 0 <= m < g.len() && rs[#[trigger] g[m]].author@ == rs[j].author@
        }),
{
    let v = profile_ballots(rs);
    let key = (id, Seq::<char>::empty());
    let g = group(v, key);
    lemma_group_upto(v, key, v.len() as int);
    let w = lemma_newest_of_slot(v, j);
    assert(in_group(v, key, w));
    assert(g.contains(w));
    let m = choose|m: int| 0 <= m < g.len() && g[m] == w;
    assert(rs[g[m]].author@ == rs[j].author@);
}

/// Among the first `k` reports, the newest vote in the slot of report `j`
/// (the first of equally numbered ones), or `j` itself when there is none.
proof fn lemma_newest_upto(bs: Seq<Ballot>, j: int, k: int) -> (w: int)
    requires
        0 <= j < bs.len(),
        bs[j].counts,
        0 <= k <= bs.len(),
    ensures
        0 <= w < bs.len(),
        bs[w].counts,
        same_slot(bs[w], bs[j]),
        forall|i: int|
            0 <= i < k && bs[i].counts && #[trigger] same_slot(bs[i], bs[j]) ==> bs[i].number < bs[w].number || (
            bs[i].number == bs[w].number && w <= i),
    decreases k,
{
    if k == 0 {
        j
    } else {
        let w0 = lemma_newest_upto(bs, j, k - 1);
        let i = k - 1;
        if bs[i].counts && same_slot(bs[i], bs[j]) && (bs[i].number > bs[w0].number || (bs[i].number
            == bs[w0].number && i < w0)) {
            i
        } else {
            w0
        }
    }
}

/// Every report that votes has a newest vote in its slot.
proof fn lemma_newest_of_slot(bs: Seq<Ballot>, j: int) -> (w: int)
    requires
        0 <= j < bs.len(),
        bs[j].counts,
    ensures
        is_latest(bs, w),
        same_slot(bs[w], bs[j]),
{
    let w = lemma_newest_upto(bs, j, bs.len() as int);
    assert forall|i: int| 0 <= i < bs.len() && bs[i].counts && #[trigger] same_slot(bs[i], bs[w]) implies bs[i].number
        < bs[w].number || (bs[i].number == bs[w].number && w <= i) by {
        assert(same_slot(bs[i], bs[j]));
    }
    w
}

proof fn lemma_low_high(rs: Seq<ParsedReport>, g: Seq<int>)
    ensures
        forall|m: int| 0 <= m < g.len() ==> low_of(rs, g) <= rs[#[trigger] g[m]].report.factor_min,
        low_of(rs, g) <= INFINITY_SPEED,
        low_of(rs, g) == INFINITY_SPEED || exists|m: int|
            0 <= m < g.len() && low_of(rs, g) == rs[#[trigger] g[m]].report.factor_min,
        forall|m: int| 0 <= m < g.len() ==> rs[#[trigger] g[m]].report.factor_max <= high_of(rs, g),
        ZERO_SPEED <= high_of(rs, g),
        high_of(rs, g) == ZERO_SPEED || exists|m: int|
            0 <= m < g.len() && high_of(rs, g) == rs[#[trigger] g[m]].report.factor_max,
    decreases g.len(),
{
    if g.len() > 0 {
        let f = g.drop_last();
        lemma_low_high(rs, f);
        let n = g.len() - 1;
        assert forall|m: int| 0 <= m < g.len() implies low_of(rs, g) <= rs[#[trigger] g[m]].report.factor_min
            && rs[g[m]].report.factor_max <= high_of(rs, g) by {
            if m < n {
                assert(f[m] == g[m]);
            }
        }
        if low_of(rs, g) != INFINITY_SPEED && low_of(rs, g) != rs[g[n]].report.factor_min {
            let m = choose|m: int| 0 <= m < f.len() && low_of(rs, f) == rs[#[trigger] f[m]].report.factor_min;
            assert(g[m] == f[m]);
        }
        if high_of(rs, g) != ZERO_SPEED && high_of(rs, g) != rs[g[n]].report.factor_max {
            let m = choose|m: int| 0 <= m < f.len() && high_of(rs, f) == rs[#[trigger] f[m]].report.factor_max;
            assert(g[m] == f[m]);
        }
    }
}

proof fn lemma_clean_votes_count(rs: Seq<ParsedReport>, g: Seq<int>)
    ensures
        clean_votes(rs, g) == g.filter(|k: int| rs[k].report.outcome == SessionOutcome::CleanUnload).len(),
    decreases g.len(),
{
    reveal(Seq::filter);
    if g.len() > 0 {
        lemma_clean_votes_count(rs, g.drop_last());
    }
}

/// What a proposal says of its reports: the lowest factor is at most every
/// counted report's minimum and is one of them (or `+∞`, above which only
/// not-a-number keys stand); the highest is at least every
/// counted report's maximum and is one of them or zero; the clean count is
/// the number of counted reports whose run ended cleanly.
pub proof fn lemma_proposal_factors(rs: Seq<ParsedReport>, ps: Seq<crate::profiles_lite::Profile>, id: Seq<char>)
    requires
        profile_proposal(rs, ps, id) is Some,
    ensures
        ({
            let g = group(profile_ballots(rs), (id, Seq::<char>::empty()));
            let p = profile_proposal(rs, ps, id)->Some_0;
            &&& forall|m: int| 0 <= m < g.len() ==> p.factor_low <= rs[#[trigger] g[m]].report.factor_min
            &&& p.factor_low <= INFINITY_SPEED
            &&& p.factor_low == INFINITY_SPEED || exists|m: int|
                0 <= m < g.len() && p.factor_low == rs[#[trigger] g[m]].report.factor_min
            &&& forall|m: int| 0 <= m < g.len() ==> rs[#[trigger] g[m]].report.factor_max <= p.factor_high
            &&& ZERO_SPEED <= p.factor_high
            &&& p.factor_high == ZERO_SPEED || exists|m: int|
                0 <= m < g.len() && p.factor_high == rs[#[trigger] g[m]].report.factor_max
            &&& p.clean_count == g.filter(|k: int| rs[k].report.outcome == SessionOutcome::CleanUnload).len()
        }),
{
    let g = group(profile_ballots(rs), (id, Seq::<char>::empty()));
    lemma_low_high(rs, g);
    lemma_clean_votes_count(rs, g);
}

proof fn lemma_name_of(rs: Seq<ParsedReport>, g: Seq<int>)
    ensures
        forall|m: int|
            0 <= m < g.len() && rs[#[trigger] g[m]].report.game_name@.len() > 0 && (forall|j: int|
                0 <= j < m ==> rs[#[trigger] g[j]].report.game_name@.len() == 0) ==> name_of(rs, g)
                == rs[g[m]].report.game_name@,
        (forall|j: int| 0 <= j < g.len() ==> rs[#[trigger] g[j]].report.game_name@.len() == 0) ==> name_of(rs, g)
            == "(unnamed)"@,
    decreases g.len(),
{
    if g.len() > 0 {
        let rest = g.drop_first();
        lemma_name_of(rs, rest);
        assert forall|k: int| 0 <= k < rest.len() implies #[trigger] rest[k] == g[k + 1] by {}
        assert forall|m: int|
            0 <= m < g.len() && rs[#[trigger] g[m]].report.game_name@.len() > 0 && (forall|j: int|
                0 <= j < m ==> rs[#[trigger] g[j]].report.game_name@.len() == 0) implies name_of(rs, g)
                == rs[g[m]].report.game_name@ by {
            if m > 0 {
                assert(rs[g[0]].report.game_name@.len() == 0);
                assert(rest[m - 1] == g[m]);
                assert forall|j: int| 0 <= j < m - 1 implies rs[#[trigger] rest[j]].report.game_name@.len() == 0 by {
                    assert(rest[j] == g[j + 1]);
                }
            }
        }
        if forall|j: int| 0 <= j < g.len() ==> rs[#[trigger] g[j]].report.game_name@.len() == 0 {
            assert forall|j: int| 0 <= j < rest.len() implies rs[#[trigger] rest[j]].report.game_name@.len() == 0 by {
                assert(rest[j] == g[j + 1]);
            }
            assert(rs[g[0]].report.game_name@.len() == 0);
        }
    }
}

/// The name a proposal gives its title is the first name a reporter filled
/// in among the reports it counts, in report order; `(unnamed)` only when
/// none of them filled one in.
pub proof fn lemma_proposal_name(rs: Seq<ParsedReport>, ps: Seq<crate::profiles_lite::Profile>, id: Seq<char>, arg: Seq<char>)
    ensures
        ({
            let g = group(profile_ballots(rs), (id, Seq::<char>::empty()));
            profile_proposal(rs, ps, id) is Some ==> {
                let name = profile_proposal(rs, ps, id)->Some_0.game_name;
                &&& forall|m: int|
                    0 <= m < g.len() && rs[#[trigger] g[m]].report.game_name@.len() > 0 && (forall|j: int|
                        0 <= j < m ==> rs[#[trigger] g[j]].report.game_name@.len() == 0) ==> name
                        == rs[g[m]].report.game_name@
                &&& (forall|j: int| 0 <= j < g.len() ==> rs[#[trigger] g[j]].report.game_name@.len() == 0) ==> name
                    == "(unnamed)"@
            }
        }),
        ({
            let g = group(launch_ballots(rs), (id, arg));
            launch_proposal(rs, ps, id, arg) is Some ==> {
                let name = launch_proposal(rs, ps, id, arg)->Some_0.game_name;
                &&& forall|m: int|
                    0 <= m < g.len() && rs[#[trigger] g[m]].report.game_name@.len() > 0 && (forall|j: int|
                        0 <= j < m ==> rs[#[trigger] g[j]].report.game_name@.len() == 0) ==> name
                        == rs[g[m]].report.game_name@
                &&& (forall|j: int| 0 <= j < g.len() ==> rs[#[trigger] g[j]].report.game_name@.len() == 0) ==> name
                    == "(unnamed)"@
            }
        }),
{
    lemma_name_of(rs, group(profile_ballots(rs), (id, Seq::<char>::empty())));
    lemma_name_of(rs, group(launch_ballots(rs), (id, arg)));
}

/// A title whose evidence meets the bar is proposed: some report names it,
/// the catalogue neither blocks nor verifies it, at least [`MIN_REPORTERS`]
/// reporters count and at least seven tenths of them ran clean.
pub proof fn lemma_evidence_meeting_the_bar_is_proposed(
    rs: Seq<ParsedReport>,
    ps: Seq<crate::profiles_lite::Profile>,
    id: Seq<char>,
)
    requires
        ({
            let g = group(profile_ballots(rs), (id, Seq::<char>::empty()));
            let lk = lookup_of(ps, sample_query(rs, g));
            &&& g.len() >= MIN_REPORTERS
            &&& !lk.blocked
            &&& !lk.verified
            &&& 10 * g.filter(|k: int| rs[k].report.outcome == SessionOutcome::CleanUnload).len()
                >= MODERATE_CLEAN_TENTHS * g.len()
        }),
    ensures
        profile_proposal(rs, ps, id) is Some,
{
    let g = group(profile_ballots(rs), (id, Seq::<char>::empty()));
    lemma_clean_votes_count(rs, g);
}

/// A launch option at least [`MIN_LAUNCH_ARG_REPORTERS`] reporters vote for is
/// proposed, unless the catalogue blocks the title or already signs it.
pub proof fn lemma_enough_launch_votes_are_proposed(
    rs: Seq<ParsedReport>,
    ps: Seq<crate::profiles_lite::Profile>,
    id: Seq<char>,
    arg: Seq<char>,
)
    requires
        ({
            let g = group(launch_ballots(rs), (id, arg));
            let lk = lookup_of(ps, sample_query(rs, g));
            &&& g.len() >= MIN_LAUNCH_ARG_REPORTERS
            &&& !lk.blocked
            &&& lk.signed_launch_argument != Some(arg)
        }),
    ensures
        launch_proposal(rs, ps, id, arg) is Some,
        launch_proposal(rs, ps, id, arg)->Some_0.reporter_count == group(launch_ballots(rs), (id, arg)).len(),
{
}

/// Two sequences with the same elements, counted with multiplicity, have
/// equally many elements of any kind.
proof fn lemma_filter_len_perm<A>(a: Seq<A>, b: Seq<A>, p: spec_fn(A) -> bool)
    requires
        a.to_multiset() == b.to_multiset(),
    ensures
        a.filter(p).len() == b.filter(p).len(),
    decreases a.len(),
{
    broadcast use vstd::seq_lib::group_to_multiset_ensures;
    broadcast use vstd::multiset::group_multiset_axioms;
    reveal(Seq::filter);
    if a.len() == 0 {
        assert(b.to_multiset().len() == 0);
        assert(b.len() == 0);
    } else {
        let x = a.last();
        let a1 = a.drop_last();
        vstd::seq_lib::to_multiset_build(a1, x);
        assert(a == a1.push(x));
        assert(a.to_multiset().count(x) > 0);
        assert(b.contains(x));
        let i = choose|i: int| 0 <= i < b.len() && b[i] == x;
        let b1 = b.remove(i);
        vstd::seq_lib::to_multiset_remove(b, i);
        assert(a1.to_multiset() =~= b1.to_multiset());
        lemma_filter_len_perm(a1, b1, p);
        let l = b.take(i);
        let r = b.skip(i + 1);
        assert(b == l + seq![x] + r);
        assert(b1 == l + r);
        Seq::filter_distributes_over_add(l + seq![x], r, p);
        Seq::filter_distributes_over_add(l, seq![x], p);
        Seq::filter_distributes_over_add(l, r, p);
        assert(seq![x].drop_last() == Seq::<A>::empty());
        assert(Seq::<A>::empty().filter(p) == Seq::<A>::empty());
    }
}

/// `med` is a median of `c`: one of its values, with at most half of the
/// values below it and at most half of the others above it.
pub open spec fn is_median(c: Seq<i64>, med: i64) -> bool {
    &&& c.contains(med)
    &&& c.filter(|x: i64| x < med).len() <= c.len() / 2
    &&& c.filter(|x: i64| x > med).len() <= (c.len() - 1) / 2
}

proof fn lemma_filter_split(c: Seq<i64>, v: i64)
    ensures
        c.filter(|x: i64| x <= v).len() + c.filter(|x: i64| x > v).len() == c.len(),
    decreases c.len(),
{
    reveal(Seq::filter);
    if c.len() > 0 {
        lemma_filter_split(c.drop_last(), v);
    }
}

proof fn lemma_filter_below_grows(c: Seq<i64>, a: i64, b: i64)
    requires
        a < b,
    ensures
        c.filter(|x: i64| x <= a).len() <= c.filter(|x: i64| x < b).len(),
    decreases c.len(),
{
    reveal(Seq::filter);
    if c.len() > 0 {
        lemma_filter_below_grows(c.drop_last(), a, b);
    }
}

/// A sequence has one median only.
pub proof fn lemma_median_is_unique(c: Seq<i64>, a: i64, b: i64)
    requires
        is_median(c, a),
        is_median(c, b),
    ensures
        a == b,
{
    if a < b {
        lemma_filter_split(c, a);
        lemma_filter_below_grows(c, a, b);
    } else if b < a {
        lemma_filter_split(c, b);
        lemma_filter_below_grows(c, b, a);
    }
}

proof fn lemma_median(rs: Seq<ParsedReport>, g: Seq<int>)
    requires
        g.len() > 0,
    ensures
        is_median(g.map_values(|k: int| rs[k].report.factor_common), median_of(rs, g)),
{
    let leq = |a: i64, b: i64| a <= b;
    let c = g.map_values(|k: int| rs[k].report.factor_common);
    assert(c == commons_of(rs, g));
    let s = c.sort_by(leq);
    assert(vstd::relations::total_ordering(leq));
    c.lemma_sort_by_ensures(leq);
    broadcast use vstd::seq_lib::group_to_multiset_ensures;
    let n: int = g.len() as int;
    assert(s.len() == n) by {
        vstd::seq_lib::to_multiset_len(s);
        vstd::seq_lib::to_multiset_len(c);
    }
    let h: int = n / 2;
    let med = s[h];
    assert(med == median_of(rs, g));
    // The median is one of the commons.
    assert(s.contains(med));
    assert(c.contains(med));
    // Fewer than half sort below it, and fewer than half above it.
    let below = |x: i64| x < med;
    let above = |x: i64| x > med;
    lemma_filter_len_perm(c, s, below);
    lemma_filter_len_perm(c, s, above);
    assert(s == s.take(h) + s.skip(h));
    Seq::filter_distributes_over_add(s.take(h), s.skip(h), below);
    assert(s.skip(h).all(|x: i64| !below(x))) by {
        assert forall|i: int| 0 <= i < s.skip(h).len() implies !below(#[trigger] s.skip(h)[i]) by {
            if i > 0 {
                assert(leq(s[h], s[h + i]));
            }
        }
    }
    s.skip(h).lemma_all_neg_filter_empty(below);
    s.take(h).lemma_filter_len(below);
    assert(s == s.take(h + 1) + s.skip(h + 1));
    Seq::filter_distributes_over_add(s.take(h + 1), s.skip(h + 1), above);
    assert(s.take(h + 1).all(|x: i64| !above(x))) by {
        assert forall|i: int| 0 <= i < s.take(h + 1).len() implies !above(#[trigger] s.take(h + 1)[i]) by {
            if i < h {
                assert(leq(s[i], s[h]));
            }
        }
    }
    s.take(h + 1).lemma_all_neg_filter_empty(above);
    s.skip(h + 1).lemma_filter_len(above);
}

/// The speed a proposal suggests: a median of its counted reports' common
/// factors (one of those factors, with at most half of them below it and at
/// most half of the others above it), raised to the ceiling the catalogue already
/// grants, held between [`MIN_SPEED`] and [`MAX_SPEED`].
pub proof fn lemma_proposal_speed(rs: Seq<ParsedReport>, ps: Seq<crate::profiles_lite::Profile>, id: Seq<char>)
    requires
        profile_proposal(rs, ps, id) is Some,
    ensures
        ({
            let g = group(profile_ballots(rs), (id, Seq::<char>::empty()));
            let c = g.map_values(|k: int| rs[k].report.factor_common);
            let ceiling = lookup_of(ps, sample_query(rs, g)).existing_ceiling;
            let p = profile_proposal(rs, ps, id)->Some_0;
            exists|med: i64|
                {
                    &&& #[trigger] is_median(c, med)
                    &&& p.suggested_max_speed == {
                        let raised = if med >= ceiling { med } else { ceiling };
                        if raised < MIN_SPEED {
                            MIN_SPEED
                        } else if raised > MAX_SPEED {
                            MAX_SPEED
                        } else {
                            raised
                        }
                    }
                }
        }),
{
    let g = group(profile_ballots(rs), (id, Seq::<char>::empty()));
    lemma_median(rs, g);
    let c = g.map_values(|k: int| rs[k].report.factor_common);
    assert(is_median(c, median_of(rs, g)));
}

/// One report counts per (reporter, title): the reports a title's proposal
/// counts come from distinct reporters, so flooding from one account adds
/// one vote at most.
pub proof fn lemma_one_report_per_reporter(rs: Seq<ParsedReport>, id: Seq<char>, arg: Seq<char>)
    ensures
        ({
            let g = group(profile_ballots(rs), (id, Seq::<char>::empty()));
            forall|a: int, b: int| 0 <= a < b < g.len() ==> rs[#[trigger] g[a]].author@ != rs[#[trigger] g[b]].author@
        }),
        ({
            let g = group(launch_ballots(rs), (id, arg));
            forall|a: int, b: int| 0 <= a < b < g.len() ==> rs[#[trigger] g[a]].author@ != rs[#[trigger] g[b]].author@
        }),
{
    let v1 = profile_ballots(rs);
    let g1 = group(v1, (id, Seq::<char>::empty()));
    tally_lemmas(v1, (id, Seq::<char>::empty()));
    assert forall|a: int, b: int| 0 <= a < b < g1.len() implies rs[#[trigger] g1[a]].author@ != rs[#[trigger] g1[b]].author@ by {
        assert(v1[g1[a]].author != v1[g1[b]].author);
    }
    let v2 = launch_ballots(rs);
    let g2 = group(v2, (id, arg));
    tally_lemmas(v2, (id, arg));
    assert forall|a: int, b: int| 0 <= a < b < g2.len() implies rs[#[trigger] g2[a]].author@ != rs[#[trigger] g2[b]].author@ by {
        assert(v2[g2[a]].author != v2[g2[b]].author);
    }
}

proof fn tally_lemmas(bs: Seq<Ballot>, key: (Seq<char>, Seq<char>))
    ensures
        forall|m: int| 0 <= m < group(bs, key).len() ==> 0 <= #[trigger] group(bs, key)[m] < bs.len(),
        forall|a: int, b: int| 0 <= a < b < group(bs, key).len() ==> bs[#[trigger] group(bs, key)[a]].author
            != bs[#[trigger] group(bs, key)[b]].author,
{
    lemma_group_upto(bs, key, bs.len() as int);
    crate::tally::lemma_one_vote_per_reporter(bs, key);
}

/// What a PARTIAL proposal never does: touch a BLOCKED or an already
/// VERIFIED title, rest on fewer than [`MIN_REPORTERS`] reporters, or suggest
/// a speed outside the bounds or below a ceiling (within the bounds) the
/// catalogue already grants.
pub proof fn lemma_profile_proposal_bounds(rs: Seq<ParsedReport>, ps: Seq<crate::profiles_lite::Profile>, id: Seq<char>)
    requires
        profile_proposal(rs, ps, id) is Some,
    ensures
        ({
            let g = group(profile_ballots(rs), (id, Seq::<char>::empty()));
            let lk = lookup_of(ps, sample_query(rs, g));
            let p = profile_proposal(rs, ps, id)->Some_0;
            &&& !lk.blocked
            &&& !lk.verified
            &&& p.identity == id
            &&& p.reporter_count == g.len() >= MIN_REPORTERS
            &&& p.clean_count <= p.reporter_count
            &&& MIN_SPEED <= p.suggested_max_speed <= MAX_SPEED
            &&& lk.existing_ceiling <= MAX_SPEED ==> lk.existing_ceiling <= p.suggested_max_speed
            &&& 10 * p.clean_count >= MODERATE_CLEAN_TENTHS * p.reporter_count
            &&& p.evidence == EvidenceStrength::Strong <==> p.reporter_count >= STRONG_REPORTERS
                && 10 * p.clean_count >= STRONG_CLEAN_TENTHS * p.reporter_count
            &&& p.clean_count == clean_votes(rs, g)
            &&& p.factor_low == low_of(rs, g)
            &&& p.factor_high == high_of(rs, g)
            &&& p.suggested_max_speed == clamp_key(
                max_key(median_of(rs, g), lk.existing_ceiling),
                MIN_SPEED,
                MAX_SPEED,
            )
            &&& min_key(lk.existing_ceiling, MAX_SPEED) <= p.suggested_max_speed
        }),
{
    let g = group(profile_ballots(rs), (id, Seq::<char>::empty()));
    lemma_clean_votes_le(rs, g);
}

/// How the catalogue is asked about a report's title.
pub open spec fn query_of(r: ParsedReport) -> Query {
    Query { store: r.report.store@, store_id: r.report.store_id@, exe: r.report.exe@ }
}

/// Reports that name a title the same way also carry the same store, store
/// id and executable, as the issue-body reader gives them.
pub open spec fn one_naming_per_title(rs: Seq<ParsedReport>) -> bool {
    forall|a: int, b: int|
        0 <= a < rs.len() && 0 <= b < rs.len() && #[trigger] rs[a].report.identity@ == #[trigger] rs[b].report.identity@
            ==> query_of(rs[a]) == query_of(rs[b])
}

proof fn lemma_group_names_its_title(rs: Seq<ParsedReport>, bs: Seq<Ballot>, id: Seq<char>, choice: Seq<char>)
    requires
        bs.len() == rs.len(),
        forall|k: int| 0 <= k < rs.len() ==> (#[trigger] bs[k]).identity == rs[k].report.identity@,
        group(bs, (id, choice)).len() > 0,
    ensures
        0 <= group(bs, (id, choice))[0] < rs.len(),
        rs[group(bs, (id, choice))[0]].report.identity@ == id,
{
    lemma_group_upto(bs, (id, choice), bs.len() as int);
    let x = group(bs, (id, choice))[0];
    assert(in_group(bs, (id, choice), x));
    assert(bs[x].identity == rs[x].report.identity@);
}

/// BLOCKED is never touched and an existing VERIFIED entry is left alone:
/// for a proposed title, the catalogue asked about any report that names it
/// says neither.
pub proof fn lemma_proposed_title_is_neither_blocked_nor_verified(
    rs: Seq<ParsedReport>,
    ps: Seq<crate::profiles_lite::Profile>,
    id: Seq<char>,
)
    requires
        one_naming_per_title(rs),
        profile_proposal(rs, ps, id) is Some,
    ensures
        forall|k: int| 0 <= k < rs.len() && rs[k].report.identity@ == id ==> {
            let lk = lookup_of(ps, query_of(#[trigger] rs[k]));
            !lk.blocked && !lk.verified
        },
{
    let bs = profile_ballots(rs);
    let g = group(bs, (id, Seq::<char>::empty()));
    lemma_group_names_its_title(rs, bs, id, Seq::<char>::empty());
    let x = g[0];
    assert forall|k: int| 0 <= k < rs.len() && rs[k].report.identity@ == id implies {
        let lk = lookup_of(ps, query_of(#[trigger] rs[k]));
        !lk.blocked && !lk.verified
    } by {
        assert(rs[x].report.identity@ == rs[k].report.identity@);
        assert(query_of(rs[x]) == query_of(rs[k]));
        assert(sample_query(rs, g) == query_of(rs[x]));
    }
}

/// A launch option is never proposed for a BLOCKED title, nor when the
/// catalogue already signs it: whichever report naming the title the
/// catalogue is asked about. The proposal names the option signed today.
pub proof fn lemma_launch_title_is_not_blocked(
    rs: Seq<ParsedReport>,
    ps: Seq<crate::profiles_lite::Profile>,
    id: Seq<char>,
    arg: Seq<char>,
)
    requires
        one_naming_per_title(rs),
        launch_proposal(rs, ps, id, arg) is Some,
    ensures
        forall|k: int| 0 <= k < rs.len() && rs[k].report.identity@ == id ==> {
            let lk = lookup_of(ps, query_of(#[trigger] rs[k]));
            &&& !lk.blocked
            &&& lk.signed_launch_argument != Some(arg)
            &&& launch_proposal(rs, ps, id, arg)->Some_0.signed == lk.signed_launch_argument
        },
{
    let bs = launch_ballots(rs);
    let g = group(bs, (id, arg));
    lemma_group_names_its_title(rs, bs, id, arg);
    let x = g[0];
    assert forall|k: int| 0 <= k < rs.len() && rs[k].report.identity@ == id implies {
        let lk = lookup_of(ps, query_of(#[trigger] rs[k]));
        &&& !lk.blocked
        &&& lk.signed_launch_argument != Some(arg)
        &&& launch_proposal(rs, ps, id, arg)->Some_0.signed == lk.signed_launch_argument
    } by {
        assert(rs[x].report.identity@ == rs[k].report.identity@);
        assert(query_of(rs[x]) == query_of(rs[k]));
        assert(sample_query(rs, g) == query_of(rs[x]));
    }
}

proof fn lemma_clean_votes_le(rs: Seq<ParsedReport>, g: Seq<int>)
    ensures
        clean_votes(rs, g) <= g.len(),
    decreases g.len(),
{
    if g.len() > 0 {
        lemma_clean_votes_le(rs, g.drop_last());
    }
}

/// What a launch-option proposal never does: touch a BLOCKED title, repeat
/// the option the catalogue already signs, rest on fewer than
/// [`MIN_LAUNCH_ARG_REPORTERS`] reporters, or carry anything but a switch.
pub proof fn lemma_launch_proposal_bounds(rs: Seq<ParsedReport>, ps: Seq<crate::profiles_lite::Profile>, id: Seq<char>, arg: Seq<char>)
    requires
        launch_proposal(rs, ps, id, arg) is Some,
    ensures
        ({
            let g = group(launch_ballots(rs), (id, arg));
            let lk = lookup_of(ps, sample_query(rs, g));
            let p = launch_proposal(rs, ps, id, arg)->Some_0;
            &&& !lk.blocked
            &&& lk.signed_launch_argument != Some(arg)
            &&& p.reporter_count == g.len() >= MIN_LAUNCH_ARG_REPORTERS
            &&& p.launch_argument == arg
            &&& crate::launch_flags::is_switch(arg)
        }),
{
    let v = launch_ballots(rs);
    let g = group(v, (id, arg));
    lemma_group_upto(v, (id, arg), v.len() as int);
    let x = g[0];
    assert(in_group(v, (id, arg), x));
    assert(v[x].counts);
    assert(v[x].choice == arg);
    let raw = opt_view(rs[x].report.launch_argument)->Some_0;
    assert(crate::launch_flags::is_switch(crate::text::trim(raw)));
}

} // verus!
