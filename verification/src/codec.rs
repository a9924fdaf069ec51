//! The on-disk document format of the progress store.
//!
//! A store is persisted as one UTF-8 text: fixed-width hexadecimal numbers,
//! length-prefixed raw strings, and one-character tags, in a fixed field
//! order — version first, then the subscribed shows, then the unwatched
//! episodes. The version is read and gated before anything else is decoded.
//! Encoding and parsing are inverses, proved below.

use vstd::prelude::*;

use crate::errors::Error;
use crate::tvmaze_api::Day;
use crate::tvmaze_api::Episode;
use crate::tvmaze_api::EpisodeView;
use crate::tvmaze_api::Network;
use crate::tvmaze_api::NetworkView;
use crate::tvmaze_api::Schedule;
use crate::tvmaze_api::Show;
use crate::tvmaze_api::ShowView;
use crate::tvmaze_api::Status;
use crate::user_data::CURRENT_VERSION;
use crate::user_data::UserData;
use crate::user_data::UserDataView;

verus! {

/// The sixteen digit characters, lowercase.
pub open spec fn hex_digit(d: int) -> char {
    if d == 0 {
        '0'
    } else if d == 1 {
        '1'
    } else if d == 2 {
        '2'
    } else if d == 3 {
        '3'
    } else if d == 4 {
        '4'
    } else if d == 5 {
        '5'
    } else if d == 6 {
        '6'
    } else if d == 7 {
        '7'
    } else if d == 8 {
        '8'
    } else if d == 9 {
        '9'
    } else if d == 10 {
        'a'
    } else if d == 11 {
        'b'
    } else if d == 12 {
        'c'
    } else if d == 13 {
        'd'
    } else if d == 14 {
        'e'
    } else {
        'f'
    }
}

/// The value of a digit character; 16 marks a non-digit.
pub open spec fn hex_val(c: char) -> int {
    if c == '0' {
        0
    } else if c == '1' {
        1
    } else if c == '2' {
        2
    } else if c == '3' {
        3
    } else if c == '4' {
        4
    } else if c == '5' {
        5
    } else if c == '6' {
        6
    } else if c == '7' {
        7
    } else if c == '8' {
        8
    } else if c == '9' {
        9
    } else if c == 'a' {
        10
    } else if c == 'b' {
        11
    } else if c == 'c' {
        12
    } else if c == 'd' {
        13
    } else if c == 'e' {
        14
    } else if c == 'f' {
        15
    } else {
        16
    }
}

pub open spec fn is_hex(c: char) -> bool {
    hex_val(c) < 16
}

pub open spec fn all_hex(s: Seq<char>) -> bool {
    forall|i: int| 0 <= i < s.len() ==> is_hex(s[i])
}

/// 16 to the given power.
pub open spec fn pow16(w: nat) -> int
    decreases w,
{
    if w == 0 {
        1
    } else {
        16 * pow16((w - 1) as nat)
    }
}

/// A number as `width` digit characters, most significant first.
pub open spec fn enc_nat(n: int, width: nat) -> Seq<char>
    decreases width,
{
    if width == 0 {
        Seq::empty()
    } else {
        enc_nat(n / 16, (width - 1) as nat).push(hex_digit(n % 16))
    }
}

/// The number a digit string stands for.
pub open spec fn dec_nat(s: Seq<char>) -> int
    decreases s.len(),
{
    if s.len() == 0 {
        0
    } else {
        dec_nat(s.drop_last()) * 16 + hex_val(s.last())
    }
}

proof fn lemma_enc_nat_len(n: int, width: nat)
    ensures
        enc_nat(n, width).len() == width,
        all_hex(enc_nat(n, width)),
    decreases width,
{
    if width > 0 {
        lemma_enc_nat_len(n / 16, (width - 1) as nat);
        let e = enc_nat(n, width);
        assert forall|i: int| 0 <= i < e.len() implies is_hex(e[i]) by {
            if i < e.len() - 1 {
                assert(e[i] == enc_nat(n / 16, (width - 1) as nat)[i]);
            } else {
                if n >= 0 {
                    assert(0 <= n % 16 < 16);
                }
                assert(is_hex(hex_digit(n % 16)));
            }
        }
    }
}

proof fn lemma_dec_nat_bound(s: Seq<char>)
    requires
        all_hex(s),
    ensures
        0 <= dec_nat(s) < pow16(s.len()),
    decreases s.len(),
{
    if s.len() > 0 {
        assert(all_hex(s.drop_last())) by {
            assert(forall|i: int| 0 <= i < s.len() - 1 ==> s.drop_last()[i] == s[i]);
        }
        lemma_dec_nat_bound(s.drop_last());
        assert(is_hex(s.last()));
        assert(dec_nat(s) <= (pow16((s.len() - 1) as nat) - 1) * 16 + 15) by (nonlinear_arith)
            requires
                dec_nat(s) == dec_nat(s.drop_last()) * 16 + hex_val(s.last()),
                dec_nat(s.drop_last()) <= pow16((s.len() - 1) as nat) - 1,
                hex_val(s.last()) <= 15,
        ;
    }
}

/// Decoding inverts encoding for numbers that fit the width.
proof fn lemma_dec_enc_nat(n: int, width: nat)
    requires
        0 <= n < pow16(width),
    ensures
        dec_nat(enc_nat(n, width)) == n,
    decreases width,
{
    if width > 0 {
        lemma_enc_nat_len(n / 16, (width - 1) as nat);
        assert(n / 16 < pow16((width - 1) as nat)) by (nonlinear_arith)
            requires
                0 <= n < pow16(width),
                pow16(width) == 16 * pow16((width - 1) as nat),
        ;
        lemma_dec_enc_nat(n / 16, (width - 1) as nat);
        let e = enc_nat(n, width);
        assert(e.drop_last() =~= enc_nat(n / 16, (width - 1) as nat));
        assert(e.last() == hex_digit(n % 16));
        assert(hex_val(hex_digit(n % 16)) == n % 16);
        assert(dec_nat(e) == (n / 16) * 16 + n % 16);
    }
}

/// A number field read at a position: `width` digit characters, or nothing.
pub open spec fn parse_nat_at(s: Seq<char>, pos: int, width: nat) -> Option<(int, int)> {
    if 0 <= pos && pos + width <= s.len() && all_hex(s.subrange(pos, pos + width)) {
        Some((dec_nat(s.subrange(pos, pos + width)), pos + width))
    } else {
        None
    }
}

/// Parsing finds exactly what encoding wrote, wherever it stands in the
/// text.
proof fn lemma_parse_enc_nat(pre: Seq<char>, n: int, width: nat, suf: Seq<char>)
    requires
        0 <= n < pow16(width),
    ensures
        parse_nat_at(pre + enc_nat(n, width) + suf, pre.len() as int, width) == Some(
            (n, pre.len() + width as int),
        ),
{
    let ctx = pre + enc_nat(n, width) + suf;
    lemma_enc_nat_len(n, width);
    assert(ctx.subrange(pre.len() as int, pre.len() + width as int) =~= enc_nat(n, width));
    lemma_dec_enc_nat(n, width);
}


// ---------------------------------------------------------------------------
// Field encodings
// ---------------------------------------------------------------------------

/// A string: its character count, then its characters raw.
pub open spec fn enc_str(t: Seq<char>) -> Seq<char> {
    enc_nat(t.len() as int, 16) + t
}

pub open spec fn parse_str_at(s: Seq<char>, pos: int) -> Option<(Seq<char>, int)> {
    match parse_nat_at(s, pos, 16) {
        None => None,
        Some((n, p)) => if n <= usize::MAX as int && p + n <= s.len() {
            Some((s.subrange(p, p + n), p + n))
        } else {
            None
        },
    }
}

/// An optional value: '0' for absent, '1' followed by the value.
pub open spec fn enc_opt_str(o: Option<Seq<char>>) -> Seq<char> {
    match o {
        None => seq!['0'],
        Some(t) => seq!['1'] + enc_str(t),
    }
}

pub open spec fn parse_opt_str_at(s: Seq<char>, pos: int) -> Option<(Option<Seq<char>>, int)> {
    if 0 <= pos < s.len() {
        if s[pos] == '0' {
            Some((None, pos + 1))
        } else if s[pos] == '1' {
            match parse_str_at(s, pos + 1) {
                None => None,
                Some((t, p)) => Some((Some(t), p)),
            }
        } else {
            None
        }
    } else {
        None
    }
}

pub open spec fn enc_network(v: NetworkView) -> Seq<char> {
    enc_nat(v.id, 16) + enc_str(v.name)
}

pub open spec fn parse_network_at(s: Seq<char>, pos: int) -> Option<(NetworkView, int)> {
    match parse_nat_at(s, pos, 16) {
        None => None,
        Some((id, p)) => if id <= usize::MAX as int {
            match parse_str_at(s, p) {
                None => None,
                Some((name, p2)) => Some((NetworkView { id, name }, p2)),
            }
        } else {
            None
        },
    }
}

pub open spec fn enc_opt_network(o: Option<NetworkView>) -> Seq<char> {
    match o {
        None => seq!['0'],
        Some(v) => seq!['1'] + enc_network(v),
    }
}

pub open spec fn parse_opt_network_at(s: Seq<char>, pos: int) -> Option<
    (Option<NetworkView>, int),
> {
    if 0 <= pos < s.len() {
        if s[pos] == '0' {
            Some((None, pos + 1))
        } else if s[pos] == '1' {
            match parse_network_at(s, pos + 1) {
                None => None,
                Some((v, p)) => Some((Some(v), p)),
            }
        } else {
            None
        }
    } else {
        None
    }
}

pub open spec fn enc_opt_nat(o: Option<int>) -> Seq<char> {
    match o {
        None => seq!['0'],
        Some(n) => seq!['1'] + enc_nat(n, 16),
    }
}

pub open spec fn parse_opt_nat_at(s: Seq<char>, pos: int) -> Option<(Option<int>, int)> {
    if 0 <= pos < s.len() {
        if s[pos] == '0' {
            Some((None, pos + 1))
        } else if s[pos] == '1' {
            match parse_nat_at(s, pos + 1, 16) {
                None => None,
                Some((n, p)) => if n <= usize::MAX as int {
                    Some((Some(n), p))
                } else {
                    None
                },
            }
        } else {
            None
        }
    } else {
        None
    }
}

/// A signed timestamp, biased into the unsigned range so that plain digit
/// encoding applies.
pub open spec fn enc_i64(t: int) -> Seq<char> {
    enc_nat(t + 0x8000_0000_0000_0000, 16)
}

pub open spec fn parse_i64_at(s: Seq<char>, pos: int) -> Option<(int, int)> {
    match parse_nat_at(s, pos, 16) {
        None => None,
        Some((n, p)) => Some((n - 0x8000_0000_0000_0000, p)),
    }
}

pub open spec fn enc_opt_i64(o: Option<int>) -> Seq<char> {
    match o {
        None => seq!['0'],
        Some(t) => seq!['1'] + enc_i64(t),
    }
}

pub open spec fn parse_opt_i64_at(s: Seq<char>, pos: int) -> Option<(Option<int>, int)> {
    if 0 <= pos < s.len() {
        if s[pos] == '0' {
            Some((None, pos + 1))
        } else if s[pos] == '1' {
            match parse_i64_at(s, pos + 1) {
                None => None,
                Some((t, p)) => Some((Some(t), p)),
            }
        } else {
            None
        }
    } else {
        None
    }
}

pub open spec fn status_char(st: Status) -> char {
    match st {
        Status::ToBeDetermined => '0',
        Status::InDevelopment => '1',
        Status::Running => '2',
        Status::Ended => '3',
    }
}

pub open spec fn parse_status_at(s: Seq<char>, pos: int) -> Option<(Status, int)> {
    if 0 <= pos < s.len() {
        if s[pos] == '0' {
            Some((Status::ToBeDetermined, pos + 1))
        } else if s[pos] == '1' {
            Some((Status::InDevelopment, pos + 1))
        } else if s[pos] == '2' {
            Some((Status::Running, pos + 1))
        } else if s[pos] == '3' {
            Some((Status::Ended, pos + 1))
        } else {
            None
        }
    } else {
        None
    }
}

pub open spec fn day_char(d: Day) -> char {
    match d {
        Day::Monday => '0',
        Day::Tuesday => '1',
        Day::Wednesday => '2',
        Day::Thursday => '3',
        Day::Friday => '4',
        Day::Saturday => '5',
        Day::Sunday => '6',
    }
}

pub open spec fn parse_day(c: char) -> Option<Day> {
    if c == '0' {
        Some(Day::Monday)
    } else if c == '1' {
        Some(Day::Tuesday)
    } else if c == '2' {
        Some(Day::Wednesday)
    } else if c == '3' {
        Some(Day::Thursday)
    } else if c == '4' {
        Some(Day::Friday)
    } else if c == '5' {
        Some(Day::Saturday)
    } else if c == '6' {
        Some(Day::Sunday)
    } else {
        None
    }
}

/// A weekday list: its count, then one character per day.
pub open spec fn enc_days(ds: Seq<Day>) -> Seq<char> {
    enc_nat(ds.len() as int, 16) + ds.map_values(|d: Day| day_char(d))
}

pub open spec fn parse_days_from(s: Seq<char>, pos: int, count: int) -> Option<(Seq<Day>, int)>
    decreases count,
{
    if count <= 0 {
        Some((Seq::empty(), pos))
    } else if 0 <= pos < s.len() {
        match parse_day(s[pos]) {
            None => None,
            Some(d) => match parse_days_from(s, pos + 1, count - 1) {
                None => None,
                Some((ds, p)) => Some((seq![d] + ds, p)),
            },
        }
    } else {
        None
    }
}

pub open spec fn parse_days_at(s: Seq<char>, pos: int) -> Option<(Seq<Day>, int)> {
    match parse_nat_at(s, pos, 16) {
        None => None,
        Some((n, p)) => if n <= usize::MAX as int {
            parse_days_from(s, p, n)
        } else {
            None
        },
    }
}

// ---------------------------------------------------------------------------
// Records
// ---------------------------------------------------------------------------

pub open spec fn enc_show(v: ShowView) -> Seq<char> {
    enc_nat(v.id, 16) + enc_str(v.name) + enc_opt_str(v.language) + enc_opt_network(v.network)
        + enc_opt_network(v.web_channel) + seq![status_char(v.status)] + enc_opt_nat(v.runtime)
        + enc_days(v.schedule_days) + enc_nat(v.last_updated, 16) + enc_nat(
        v.last_watched_episode.0,
        16,
    ) + enc_nat(v.last_watched_episode.1, 16)
}

#[verifier::opaque]
pub open spec fn parse_show_at(s: Seq<char>, pos: int) -> Option<(ShowView, int)> {
    match parse_nat_at(s, pos, 16) {
        None => None,
        Some((id, p1)) => if id > usize::MAX as int {
            None
        } else {
            match parse_str_at(s, p1) {
                None => None,
                Some((name, p2)) => match parse_opt_str_at(s, p2) {
                    None => None,
                    Some((language, p3)) => match parse_opt_network_at(s, p3) {
                        None => None,
                        Some((network, p4)) => match parse_opt_network_at(s, p4) {
                            None => None,
                            Some((web_channel, p5)) => match parse_status_at(s, p5) {
                                None => None,
                                Some((status, p6)) => match parse_opt_nat_at(s, p6) {
                                    None => None,
                                    Some((runtime, p7)) => match parse_days_at(s, p7) {
                                        None => None,
                                        Some((schedule_days, p8)) => match parse_nat_at(
                                            s,
                                            p8,
                                            16,
                                        ) {
                                            None => None,
                                            Some((last_updated, p9)) => match parse_nat_at(
                                                s,
                                                p9,
                                                16,
                                            ) {
                                                None => None,
                                                Some((lw0, p10)) => if lw0 > usize::MAX as int {
                                                    None
                                                } else {
                                                    match parse_nat_at(s, p10, 16) {
                                                        None => None,
                                                        Some((lw1, p11)) => if lw1
                                                            > usize::MAX as int {
                                                            None
                                                        } else {
                                                            Some(
                                                                (
                                                                    ShowView {
                                                                        id,
                                                                        name,
                                                                        language,
                                                                        network,
                                                                        web_channel,
                                                                        status,
                                                                        runtime,
                                                                        schedule_days,
                                                                        last_updated,
                                                                        last_watched_episode: (
                                                                            lw0,
                                                                            lw1,
                                                                        ),
                                                                    },
                                                                    p11,
                                                                ),
                                                            )
                                                        },
                                                    }
                                                },
                                            },
                                        },
                                    },
                                },
                            },
                        },
                    },
                },
            }
        },
    }
}

pub open spec fn enc_episode(v: EpisodeView) -> Seq<char> {
    enc_nat(v.episode_id, 16) + enc_nat(v.show_id, 16) + enc_str(v.name) + enc_nat(v.season, 16)
        + enc_nat(v.number, 16) + enc_opt_i64(v.airstamp) + enc_nat(v.runtime, 16) + seq![
        if v.watched {
            '1'
        } else {
            '0'
        },
    ]
}

#[verifier::opaque]
pub open spec fn parse_episode_at(s: Seq<char>, pos: int) -> Option<(EpisodeView, int)> {
    match parse_nat_at(s, pos, 16) {
        None => None,
        Some((episode_id, p1)) => if episode_id > usize::MAX as int {
            None
        } else {
            match parse_nat_at(s, p1, 16) {
                None => None,
                Some((show_id, p2)) => if show_id > usize::MAX as int {
                    None
                } else {
                    match parse_str_at(s, p2) {
                        None => None,
                        Some((name, p3)) => match parse_nat_at(s, p3, 16) {
                            None => None,
                            Some((season, p4)) => if season > usize::MAX as int {
                                None
                            } else {
                                match parse_nat_at(s, p4, 16) {
                                    None => None,
                                    Some((number, p5)) => if number > usize::MAX as int {
                                        None
                                    } else {
                                        match parse_opt_i64_at(s, p5) {
                                            None => None,
                                            Some((airstamp, p6)) => match parse_nat_at(
                                                s,
                                                p6,
                                                16,
                                            ) {
                                                None => None,
                                                Some((runtime, p7)) => if runtime
                                                    > usize::MAX as int {
                                                    None
                                                } else {
                                                    if 0 <= p7 < s.len() && (s[p7] == '0'
                                                        || s[p7] == '1') {
                                                        Some(
                                                            (
                                                                EpisodeView {
                                                                    episode_id,
                                                                    show_id,
                                                                    name,
                                                                    season,
                                                                    number,
                                                                    airstamp,
                                                                    runtime,
                                                                    watched: s[p7] == '1',
                                                                },
                                                                p7 + 1,
                                                            ),
                                                        )
                                                    } else {
                                                        None
                                                    }
                                                },
                                            },
                                        }
                                    },
                                }
                            },
                        },
                    }
                },
            }
        },
    }
}

// ---------------------------------------------------------------------------
// Lists and the whole document
// ---------------------------------------------------------------------------

pub open spec fn enc_shows(vs: Seq<ShowView>) -> Seq<char>
    decreases vs.len(),
{
    if vs.len() == 0 {
        Seq::empty()
    } else {
        enc_show(vs[0]) + enc_shows(vs.drop_first())
    }
}

pub open spec fn parse_shows_from(s: Seq<char>, pos: int, count: int) -> Option<
    (Seq<ShowView>, int),
>
    decreases count,
{
    if count <= 0 {
        Some((Seq::empty(), pos))
    } else {
        match parse_show_at(s, pos) {
            None => None,
            Some((v, p)) => match parse_shows_from(s, p, count - 1) {
                None => None,
                Some((vs, p2)) => Some((seq![v] + vs, p2)),
            },
        }
    }
}

pub open spec fn enc_episodes(vs: Seq<EpisodeView>) -> Seq<char>
    decreases vs.len(),
{
    if vs.len() == 0 {
        Seq::empty()
    } else {
        enc_episode(vs[0]) + enc_episodes(vs.drop_first())
    }
}

pub open spec fn parse_episodes_from(s: Seq<char>, pos: int, count: int) -> Option<
    (Seq<EpisodeView>, int),
>
    decreases count,
{
    if count <= 0 {
        Some((Seq::empty(), pos))
    } else {
        match parse_episode_at(s, pos) {
            None => None,
            Some((v, p)) => match parse_episodes_from(s, p, count - 1) {
                None => None,
                Some((vs, p2)) => Some((seq![v] + vs, p2)),
            },
        }
    }
}

/// The whole document: an 8-digit version, the show count and shows, the
/// episode count and episodes, nothing after.
pub open spec fn enc_doc(d: UserDataView) -> Seq<char> {
    enc_nat(d.version, 8) + enc_nat(d.subscribed_shows.len() as int, 16) + enc_shows(
        d.subscribed_shows,
    ) + enc_nat(d.unwatched_episodes.len() as int, 16) + enc_episodes(d.unwatched_episodes)
}

/// What loading a document yields: the version is inspected first and gated
/// before any record is decoded; a document that does not decode in full, or
/// whose collections break the store's invariant, is malformed.
pub open spec fn parse_doc(s: Seq<char>) -> Result<UserDataView, Error> {
    match parse_nat_at(s, 0, 8) {
        None => Err(Error::Malformed),
        Some((ver, p1)) => if ver > CURRENT_VERSION as int {
            Err(
                Error::VersionMismatch {
                    expected: CURRENT_VERSION,
                    actual: ver as u32,
                },
            )
        } else {
            match parse_nat_at(s, p1, 16) {
                None => Err(Error::Malformed),
                Some((nshows, p2)) => if nshows > usize::MAX as int {
                    Err(Error::Malformed)
                } else {
                    match parse_shows_from(s, p2, nshows) {
                        None => Err(Error::Malformed),
                        Some((shows, p3)) => match parse_nat_at(s, p3, 16) {
                            None => Err(Error::Malformed),
                            Some((neps, p4)) => if neps > usize::MAX as int {
                                Err(Error::Malformed)
                            } else {
                                match parse_episodes_from(s, p4, neps) {
                                    None => Err(Error::Malformed),
                                    Some((eps, p5)) => if p5 == s.len()
                                        && crate::user_data::shows_sorted_unique(shows)
                                        && crate::user_data::episodes_sorted(eps)
                                        && crate::user_data::episodes_unique(eps) {
                                        Ok(
                                            UserDataView {
                                                version: ver,
                                                subscribed_shows: shows,
                                                unwatched_episodes: eps,
                                            },
                                        )
                                    } else {
                                        Err(Error::Malformed)
                                    },
                                }
                            },
                        },
                    }
                },
            }
        },
    }
}


// ---------------------------------------------------------------------------
// Round trip
// ---------------------------------------------------------------------------

/// Field values that the executable types can hold; views of real data
/// always satisfy these.
pub open spec fn str_in_range(t: Seq<char>) -> bool {
    t.len() <= usize::MAX
}

pub open spec fn opt_str_in_range(o: Option<Seq<char>>) -> bool {
    match o {
        None => true,
        Some(t) => str_in_range(t),
    }
}

pub open spec fn network_in_range(v: NetworkView) -> bool {
    0 <= v.id <= usize::MAX && str_in_range(v.name)
}

pub open spec fn opt_network_in_range(o: Option<NetworkView>) -> bool {
    match o {
        None => true,
        Some(v) => network_in_range(v),
    }
}

pub open spec fn show_in_range(v: ShowView) -> bool {
    &&& 0 <= v.id <= usize::MAX
    &&& str_in_range(v.name)
    &&& opt_str_in_range(v.language)
    &&& opt_network_in_range(v.network)
    &&& opt_network_in_range(v.web_channel)
    &&& match v.runtime {
        None => true,
        Some(r) => 0 <= r <= usize::MAX,
    }
    &&& v.schedule_days.len() <= usize::MAX
    &&& 0 <= v.last_updated <= u64::MAX
    &&& 0 <= v.last_watched_episode.0 <= usize::MAX
    &&& 0 <= v.last_watched_episode.1 <= usize::MAX
}

pub open spec fn episode_in_range(v: EpisodeView) -> bool {
    &&& 0 <= v.episode_id <= usize::MAX
    &&& 0 <= v.show_id <= usize::MAX
    &&& str_in_range(v.name)
    &&& 0 <= v.season <= usize::MAX
    &&& 0 <= v.number <= usize::MAX
    &&& match v.airstamp {
        None => true,
        Some(t) => i64::MIN <= t <= i64::MAX,
    }
    &&& 0 <= v.runtime <= usize::MAX
}

pub open spec fn shows_in_range(s: Seq<ShowView>) -> bool {
    forall|i: int| 0 <= i < s.len() ==> show_in_range(#[trigger] s[i])
}

pub open spec fn episodes_in_range(s: Seq<EpisodeView>) -> bool {
    forall|i: int| 0 <= i < s.len() ==> episode_in_range(#[trigger] s[i])
}

pub open spec fn doc_in_range(d: UserDataView) -> bool {
    &&& 0 <= d.version <= u32::MAX
    &&& d.subscribed_shows.len() <= usize::MAX
    &&& d.unwatched_episodes.len() <= usize::MAX
    &&& shows_in_range(d.subscribed_shows)
    &&& episodes_in_range(d.unwatched_episodes)
}

proof fn lemma_pow16_values()
    ensures
        pow16(16) == 0x1_0000_0000_0000_0000,
        pow16(8) == 0x1_0000_0000,
{
    reveal_with_fuel(pow16, 17);
}

proof fn lemma_parse_enc_str(pre: Seq<char>, t: Seq<char>, suf: Seq<char>)
    requires
        str_in_range(t),
    ensures
        parse_str_at(pre + enc_str(t) + suf, pre.len() as int) == Some(
            (t, (pre.len() + enc_str(t).len()) as int),
        ),
        enc_str(t).len() == 16 + t.len(),
{
    let ctx = pre + enc_str(t) + suf;
    lemma_pow16_values();
    lemma_enc_nat_len(t.len() as int, 16);
    assert(ctx =~= pre + enc_nat(t.len() as int, 16) + (t + suf));
    lemma_parse_enc_nat(pre, t.len() as int, 16, t + suf);
    let p = pre.len() + 16;
    assert(ctx.subrange(p as int, p + t.len() as int) =~= t);
}

proof fn lemma_parse_enc_opt_str(pre: Seq<char>, o: Option<Seq<char>>, suf: Seq<char>)
    requires
        opt_str_in_range(o),
    ensures
        parse_opt_str_at(pre + enc_opt_str(o) + suf, pre.len() as int) == Some(
            (o, (pre.len() + enc_opt_str(o).len()) as int),
        ),
{
    let ctx = pre + enc_opt_str(o) + suf;
    match o {
        None => {
            assert(ctx[pre.len() as int] == '0');
        },
        Some(t) => {
            assert(ctx[pre.len() as int] == '1');
            assert(ctx =~= (pre + seq!['1']) + enc_str(t) + suf);
            lemma_parse_enc_str(pre + seq!['1'], t, suf);
        },
    }
}

proof fn lemma_parse_enc_network(pre: Seq<char>, v: NetworkView, suf: Seq<char>)
    requires
        network_in_range(v),
    ensures
        parse_network_at(pre + enc_network(v) + suf, pre.len() as int) == Some(
            (v, (pre.len() + enc_network(v).len()) as int),
        ),
{
    let ctx = pre + enc_network(v) + suf;
    lemma_pow16_values();
    lemma_enc_nat_len(v.id, 16);
    assert(ctx =~= pre + enc_nat(v.id, 16) + (enc_str(v.name) + suf));
    lemma_parse_enc_nat(pre, v.id, 16, enc_str(v.name) + suf);
    assert(ctx =~= (pre + enc_nat(v.id, 16)) + enc_str(v.name) + suf);
    lemma_parse_enc_str(pre + enc_nat(v.id, 16), v.name, suf);
}

proof fn lemma_parse_enc_opt_network(pre: Seq<char>, o: Option<NetworkView>, suf: Seq<char>)
    requires
        opt_network_in_range(o),
    ensures
        parse_opt_network_at(pre + enc_opt_network(o) + suf, pre.len() as int) == Some(
            (o, (pre.len() + enc_opt_network(o).len()) as int),
        ),
{
    let ctx = pre + enc_opt_network(o) + suf;
    match o {
        None => {
            assert(ctx[pre.len() as int] == '0');
        },
        Some(v) => {
            assert(ctx[pre.len() as int] == '1');
            assert(ctx =~= (pre + seq!['1']) + enc_network(v) + suf);
            lemma_parse_enc_network(pre + seq!['1'], v, suf);
        },
    }
}

proof fn lemma_parse_enc_opt_nat(pre: Seq<char>, o: Option<int>, suf: Seq<char>)
    requires
        match o {
            None => true,
            Some(n) => 0 <= n <= usize::MAX,
        },
    ensures
        parse_opt_nat_at(pre + enc_opt_nat(o) + suf, pre.len() as int) == Some(
            (o, (pre.len() + enc_opt_nat(o).len()) as int),
        ),
{
    let ctx = pre + enc_opt_nat(o) + suf;
    match o {
        None => {
            assert(ctx[pre.len() as int] == '0');
        },
        Some(n) => {
            assert(ctx[pre.len() as int] == '1');
            lemma_pow16_values();
            lemma_enc_nat_len(n, 16);
            assert(ctx =~= (pre + seq!['1']) + enc_nat(n, 16) + suf);
            lemma_parse_enc_nat(pre + seq!['1'], n, 16, suf);
        },
    }
}

proof fn lemma_parse_enc_opt_i64(pre: Seq<char>, o: Option<int>, suf: Seq<char>)
    requires
        match o {
            None => true,
            Some(t) => i64::MIN <= t <= i64::MAX,
        },
    ensures
        parse_opt_i64_at(pre + enc_opt_i64(o) + suf, pre.len() as int) == Some(
            (o, (pre.len() + enc_opt_i64(o).len()) as int),
        ),
{
    let ctx = pre + enc_opt_i64(o) + suf;
    match o {
        None => {
            assert(ctx[pre.len() as int] == '0');
        },
        Some(t) => {
            assert(ctx[pre.len() as int] == '1');
            lemma_pow16_values();
            lemma_enc_nat_len(t + 0x8000_0000_0000_0000, 16);
            assert(ctx =~= (pre + seq!['1']) + enc_nat(t + 0x8000_0000_0000_0000, 16) + suf);
            lemma_parse_enc_nat(pre + seq!['1'], t + 0x8000_0000_0000_0000, 16, suf);
        },
    }
}

proof fn lemma_parse_day_chars(pre: Seq<char>, ds: Seq<Day>, suf: Seq<char>)
    ensures
        parse_days_from(
            pre + ds.map_values(|d: Day| day_char(d)) + suf,
            pre.len() as int,
            ds.len() as int,
        ) == Some((ds, (pre.len() + ds.len()) as int)),
    decreases ds.len(),
{
    let m = ds.map_values(|d: Day| day_char(d));
    let ctx = pre + m + suf;
    if ds.len() > 0 {
        assert(ctx[pre.len() as int] == day_char(ds[0]));
        assert(parse_day(day_char(ds[0])) == Some(ds[0]));
        assert(ds.drop_first().map_values(|d: Day| day_char(d)) =~= m.drop_first());
        assert(ctx =~= (pre + seq![m[0]]) + ds.drop_first().map_values(|d: Day| day_char(d))
            + suf);
        lemma_parse_day_chars(pre + seq![m[0]], ds.drop_first(), suf);
        assert(seq![ds[0]] + ds.drop_first() =~= ds);
    }
}

proof fn lemma_parse_enc_days(pre: Seq<char>, ds: Seq<Day>, suf: Seq<char>)
    requires
        ds.len() <= usize::MAX,
    ensures
        parse_days_at(pre + enc_days(ds) + suf, pre.len() as int) == Some(
            (ds, (pre.len() + enc_days(ds).len()) as int),
        ),
        enc_days(ds).len() == 16 + ds.len(),
{
    let m = ds.map_values(|d: Day| day_char(d));
    let ctx = pre + enc_days(ds) + suf;
    lemma_pow16_values();
    lemma_enc_nat_len(ds.len() as int, 16);
    assert(ctx =~= pre + enc_nat(ds.len() as int, 16) + (m + suf));
    lemma_parse_enc_nat(pre, ds.len() as int, 16, m + suf);
    assert(ctx =~= (pre + enc_nat(ds.len() as int, 16)) + m + suf);
    lemma_parse_day_chars(pre + enc_nat(ds.len() as int, 16), ds, suf);
}


#[verifier::rlimit(100)]
#[verifier::spinoff_prover]
proof fn lemma_parse_enc_show(pre: Seq<char>, v: ShowView, suf: Seq<char>)
    requires
        show_in_range(v),
    ensures
        parse_show_at(pre + enc_show(v) + suf, pre.len() as int) == Some(
            (v, (pre.len() + enc_show(v).len()) as int),
        ),
{
    reveal(parse_show_at);
    let e1 = enc_nat(v.id, 16);
    let e2 = enc_str(v.name);
    let e3 = enc_opt_str(v.language);
    let e4 = enc_opt_network(v.network);
    let e5 = enc_opt_network(v.web_channel);
    let e6 = seq![status_char(v.status)];
    let e7 = enc_opt_nat(v.runtime);
    let e8 = enc_days(v.schedule_days);
    let e9 = enc_nat(v.last_updated, 16);
    let e10 = enc_nat(v.last_watched_episode.0, 16);
    let e11 = enc_nat(v.last_watched_episode.1, 16);
    let ctx = pre + enc_show(v) + suf;
    lemma_pow16_values();
    lemma_enc_nat_len(v.id, 16);
    lemma_enc_nat_len(v.last_updated, 16);
    lemma_enc_nat_len(v.last_watched_episode.0, 16);
    lemma_enc_nat_len(v.last_watched_episode.1, 16);
    // flatten the encoded show onto the prefix, one associativity step each
    let q1 = pre + e1;
    let q2 = q1 + e2;
    let q3 = q2 + e3;
    let q4 = q3 + e4;
    let q5 = q4 + e5;
    let q6 = q5 + e6;
    let q7 = q6 + e7;
    let q8 = q7 + e8;
    let q9 = q8 + e9;
    let q10 = q9 + e10;
    let q11 = q10 + e11;
    vstd::seq_lib::lemma_concat_associative(pre, e1, e2);
    vstd::seq_lib::lemma_concat_associative(pre, e1 + e2, e3);
    vstd::seq_lib::lemma_concat_associative(pre, e1 + e2 + e3, e4);
    vstd::seq_lib::lemma_concat_associative(pre, e1 + e2 + e3 + e4, e5);
    vstd::seq_lib::lemma_concat_associative(pre, e1 + e2 + e3 + e4 + e5, e6);
    vstd::seq_lib::lemma_concat_associative(pre, e1 + e2 + e3 + e4 + e5 + e6, e7);
    vstd::seq_lib::lemma_concat_associative(pre, e1 + e2 + e3 + e4 + e5 + e6 + e7, e8);
    vstd::seq_lib::lemma_concat_associative(pre, e1 + e2 + e3 + e4 + e5 + e6 + e7 + e8, e9);
    vstd::seq_lib::lemma_concat_associative(pre, e1 + e2 + e3 + e4 + e5 + e6 + e7 + e8 + e9, e10);
    vstd::seq_lib::lemma_concat_associative(
        pre,
        e1 + e2 + e3 + e4 + e5 + e6 + e7 + e8 + e9 + e10,
        e11,
    );
    assert(pre + enc_show(v) == q11);
    // unfold from the right: at each seam the text splits as done ++ field ++ rest
    let u11 = suf;
    let u10 = e11 + u11;
    let u9 = e10 + u10;
    let u8 = e9 + u9;
    let u7 = e8 + u8;
    let u6 = e7 + u7;
    let u5 = e6 + u6;
    let u4 = e5 + u5;
    let u3 = e4 + u4;
    let u2 = e3 + u3;
    let u1 = e2 + u2;
    vstd::seq_lib::lemma_concat_associative(q10, e11, u11);
    vstd::seq_lib::lemma_concat_associative(q9, e10, u10);
    vstd::seq_lib::lemma_concat_associative(q8, e9, u9);
    vstd::seq_lib::lemma_concat_associative(q7, e8, u8);
    vstd::seq_lib::lemma_concat_associative(q6, e7, u7);
    vstd::seq_lib::lemma_concat_associative(q5, e6, u6);
    vstd::seq_lib::lemma_concat_associative(q4, e5, u5);
    vstd::seq_lib::lemma_concat_associative(q3, e4, u4);
    vstd::seq_lib::lemma_concat_associative(q2, e3, u3);
    vstd::seq_lib::lemma_concat_associative(q1, e2, u2);
    vstd::seq_lib::lemma_concat_associative(pre, e1, u1);
    assert(ctx == pre + e1 + u1);
    lemma_parse_enc_nat(pre, v.id, 16, u1);
    assert(ctx == q1 + e2 + u2);
    lemma_parse_enc_str(q1, v.name, u2);
    assert(ctx == q2 + e3 + u3);
    lemma_parse_enc_opt_str(q2, v.language, u3);
    assert(ctx == q3 + e4 + u4);
    lemma_parse_enc_opt_network(q3, v.network, u4);
    assert(ctx == q4 + e5 + u5);
    lemma_parse_enc_opt_network(q4, v.web_channel, u5);
    assert(ctx == q5 + e6 + u6);
    assert(ctx[q5.len() as int] == status_char(v.status));
    assert(parse_status_at(ctx, q5.len() as int) == Some((v.status, q6.len() as int)));
    assert(ctx == q6 + e7 + u7);
    lemma_parse_enc_opt_nat(q6, v.runtime, u7);
    assert(ctx == q7 + e8 + u8);
    lemma_parse_enc_days(q7, v.schedule_days, u8);
    assert(ctx == q8 + e9 + u9);
    lemma_parse_enc_nat(q8, v.last_updated, 16, u9);
    assert(ctx == q9 + e10 + u10);
    lemma_parse_enc_nat(q9, v.last_watched_episode.0, 16, u10);
    assert(ctx == q10 + e11 + u11);
    lemma_parse_enc_nat(q10, v.last_watched_episode.1, 16, u11);
    assert(q11.len() == pre.len() + enc_show(v).len());
}

#[verifier::rlimit(100)]
#[verifier::spinoff_prover]
proof fn lemma_parse_enc_episode(pre: Seq<char>, v: EpisodeView, suf: Seq<char>)
    requires
        episode_in_range(v),
    ensures
        parse_episode_at(pre + enc_episode(v) + suf, pre.len() as int) == Some(
            (v, (pre.len() + enc_episode(v).len()) as int),
        ),
{
    reveal(parse_episode_at);
    let e1 = enc_nat(v.episode_id, 16);
    let e2 = enc_nat(v.show_id, 16);
    let e3 = enc_str(v.name);
    let e4 = enc_nat(v.season, 16);
    let e5 = enc_nat(v.number, 16);
    let e6 = enc_opt_i64(v.airstamp);
    let e7 = enc_nat(v.runtime, 16);
    let e8 = seq![
        if v.watched {
            '1'
        } else {
            '0'
        },
    ];
    let ctx = pre + enc_episode(v) + suf;
    lemma_pow16_values();
    lemma_enc_nat_len(v.episode_id, 16);
    lemma_enc_nat_len(v.show_id, 16);
    lemma_enc_nat_len(v.season, 16);
    lemma_enc_nat_len(v.number, 16);
    lemma_enc_nat_len(v.runtime, 16);
    let q1 = pre + e1;
    let q2 = q1 + e2;
    let q3 = q2 + e3;
    let q4 = q3 + e4;
    let q5 = q4 + e5;
    let q6 = q5 + e6;
    let q7 = q6 + e7;
    let q8 = q7 + e8;
    vstd::seq_lib::lemma_concat_associative(pre, e1, e2);
    vstd::seq_lib::lemma_concat_associative(pre, e1 + e2, e3);
    vstd::seq_lib::lemma_concat_associative(pre, e1 + e2 + e3, e4);
    vstd::seq_lib::lemma_concat_associative(pre, e1 + e2 + e3 + e4, e5);
    vstd::seq_lib::lemma_concat_associative(pre, e1 + e2 + e3 + e4 + e5, e6);
    vstd::seq_lib::lemma_concat_associative(pre, e1 + e2 + e3 + e4 + e5 + e6, e7);
    vstd::seq_lib::lemma_concat_associative(pre, e1 + e2 + e3 + e4 + e5 + e6 + e7, e8);
    assert(pre + enc_episode(v) == q8);
    let u8 = suf;
    let u7 = e8 + u8;
    let u6 = e7 + u7;
    let u5 = e6 + u6;
    let u4 = e5 + u5;
    let u3 = e4 + u4;
    let u2 = e3 + u3;
    let u1 = e2 + u2;
    vstd::seq_lib::lemma_concat_associative(q7, e8, u8);
    vstd::seq_lib::lemma_concat_associative(q6, e7, u7);
    vstd::seq_lib::lemma_concat_associative(q5, e6, u6);
    vstd::seq_lib::lemma_concat_associative(q4, e5, u5);
    vstd::seq_lib::lemma_concat_associative(q3, e4, u4);
    vstd::seq_lib::lemma_concat_associative(q2, e3, u3);
    vstd::seq_lib::lemma_concat_associative(q1, e2, u2);
    vstd::seq_lib::lemma_concat_associative(pre, e1, u1);
    assert(ctx == pre + e1 + u1);
    lemma_parse_enc_nat(pre, v.episode_id, 16, u1);
    assert(ctx == q1 + e2 + u2);
    lemma_parse_enc_nat(q1, v.show_id, 16, u2);
    assert(ctx == q2 + e3 + u3);
    lemma_parse_enc_str(q2, v.name, u3);
    assert(ctx == q3 + e4 + u4);
    lemma_parse_enc_nat(q3, v.season, 16, u4);
    assert(ctx == q4 + e5 + u5);
    lemma_parse_enc_nat(q4, v.number, 16, u5);
    assert(ctx == q5 + e6 + u6);
    lemma_parse_enc_opt_i64(q5, v.airstamp, u6);
    assert(ctx == q6 + e7 + u7);
    lemma_parse_enc_nat(q6, v.runtime, 16, u7);
    assert(ctx == q7 + e8 + u8);
    assert(ctx[q7.len() as int] == e8[0]);
    assert(q8.len() == pre.len() + enc_episode(v).len());
}

#[verifier::rlimit(100)]
#[verifier::spinoff_prover]
proof fn lemma_parse_enc_shows(pre: Seq<char>, vs: Seq<ShowView>, suf: Seq<char>)
    requires
        shows_in_range(vs),
    ensures
        parse_shows_from(pre + enc_shows(vs) + suf, pre.len() as int, vs.len() as int) == Some(
            (vs, (pre.len() + enc_shows(vs).len()) as int),
        ),
    decreases vs.len(),
{
    let ctx = pre + enc_shows(vs) + suf;
    if vs.len() == 0 {
        assert(enc_shows(vs) =~= Seq::<char>::empty());
    } else {
        let rest = vs.drop_first();
        let a = enc_show(vs[0]);
        let b = enc_shows(rest);
        vstd::seq_lib::lemma_concat_associative(pre, a, b);
        vstd::seq_lib::lemma_concat_associative(pre + a, b, suf);
        assert(ctx == pre + a + (b + suf));
        lemma_parse_enc_show(pre, vs[0], enc_shows(rest) + suf);
        assert(ctx == (pre + enc_show(vs[0])) + enc_shows(rest) + suf);
        assert(shows_in_range(rest)) by {
            assert(forall|i: int| 0 <= i < rest.len() ==> rest[i] == vs[i + 1]);
        }
        lemma_parse_enc_shows(pre + enc_show(vs[0]), rest, suf);
        assert(seq![vs[0]] + rest =~= vs);
    }
}

#[verifier::rlimit(100)]
#[verifier::spinoff_prover]
proof fn lemma_parse_enc_episodes(pre: Seq<char>, vs: Seq<EpisodeView>, suf: Seq<char>)
    requires
        episodes_in_range(vs),
    ensures
        parse_episodes_from(pre + enc_episodes(vs) + suf, pre.len() as int, vs.len() as int)
            == Some((vs, (pre.len() + enc_episodes(vs).len()) as int)),
    decreases vs.len(),
{
    let ctx = pre + enc_episodes(vs) + suf;
    if vs.len() == 0 {
        assert(enc_episodes(vs) =~= Seq::<char>::empty());
    } else {
        let rest = vs.drop_first();
        let a = enc_episode(vs[0]);
        let b = enc_episodes(rest);
        vstd::seq_lib::lemma_concat_associative(pre, a, b);
        vstd::seq_lib::lemma_concat_associative(pre + a, b, suf);
        assert(ctx == pre + a + (b + suf));
        lemma_parse_enc_episode(pre, vs[0], enc_episodes(rest) + suf);
        assert(ctx == (pre + enc_episode(vs[0])) + enc_episodes(rest) + suf);
        assert(episodes_in_range(rest)) by {
            assert(forall|i: int| 0 <= i < rest.len() ==> rest[i] == vs[i + 1]);
        }
        lemma_parse_enc_episodes(pre + enc_episode(vs[0]), rest, suf);
        assert(seq![vs[0]] + rest =~= vs);
    }
}

/// What parsing an encoded document yields, field by field: the version is
/// inspected first, and everything decodes to what was encoded.
#[verifier::rlimit(100)]
#[verifier::spinoff_prover]
proof fn lemma_parse_enc_doc(d: UserDataView)
    requires
        doc_in_range(d),
    ensures
        d.version > CURRENT_VERSION as int ==> parse_doc(enc_doc(d)) == Err::<UserDataView, Error>(
            Error::VersionMismatch { expected: CURRENT_VERSION, actual: d.version as u32 },
        ),
        d.version <= CURRENT_VERSION as int && crate::user_data::shows_sorted_unique(
            d.subscribed_shows,
        ) && crate::user_data::episodes_sorted(d.unwatched_episodes)
            && crate::user_data::episodes_unique(d.unwatched_episodes) ==> parse_doc(enc_doc(d))
            == Ok::<UserDataView, Error>(d),
{
    let e1 = enc_nat(d.version, 8);
    let e2 = enc_nat(d.subscribed_shows.len() as int, 16);
    let e3 = enc_shows(d.subscribed_shows);
    let e4 = enc_nat(d.unwatched_episodes.len() as int, 16);
    let e5 = enc_episodes(d.unwatched_episodes);
    let ctx = enc_doc(d);
    let empty = Seq::<char>::empty();
    lemma_pow16_values();
    lemma_enc_nat_len(d.version, 8);
    lemma_enc_nat_len(d.subscribed_shows.len() as int, 16);
    lemma_enc_nat_len(d.unwatched_episodes.len() as int, 16);
    let p1 = empty + e1;
    let p2 = p1 + e2;
    let p3 = p2 + e3;
    let p4 = p3 + e4;
    assert(ctx =~= empty + e1 + (e2 + e3 + e4 + e5 + empty));
    lemma_parse_enc_nat(empty, d.version, 8, e2 + e3 + e4 + e5 + empty);
    assert(parse_nat_at(ctx, 0, 8) == Some((d.version, 8int)));
    if d.version > CURRENT_VERSION as int {
    } else {
        assert(ctx =~= p1 + e2 + (e3 + e4 + e5 + empty));
        lemma_parse_enc_nat(p1, d.subscribed_shows.len() as int, 16, e3 + e4 + e5 + empty);
        assert(ctx =~= p2 + e3 + (e4 + e5 + empty));
        lemma_parse_enc_shows(p2, d.subscribed_shows, e4 + e5 + empty);
        assert(ctx =~= p3 + e4 + (e5 + empty));
        lemma_parse_enc_nat(p3, d.unwatched_episodes.len() as int, 16, e5 + empty);
        assert(ctx =~= p4 + e5 + empty);
        lemma_parse_enc_episodes(p4, d.unwatched_episodes, empty);
        assert((p4 + e5).len() == ctx.len());
    }
}

/// **Round-trip.** A well-formed store encoded at a version this build
/// understands parses back to exactly the model that was saved.
pub proof fn lemma_document_roundtrip(d: UserDataView)
    requires
        doc_in_range(d),
        d.version <= CURRENT_VERSION as int,
        crate::user_data::shows_sorted_unique(d.subscribed_shows),
        crate::user_data::episodes_sorted(d.unwatched_episodes),
        crate::user_data::episodes_unique(d.unwatched_episodes),
    ensures
        parse_doc(enc_doc(d)) == Ok::<UserDataView, Error>(d),
{
    lemma_parse_enc_doc(d);
}

/// **Version rejection.** A document written at a version newer than this
/// build fails with the distinguished version-mismatch error — whatever else
/// it contains, and without yielding any store.
pub proof fn lemma_version_rejected(d: UserDataView)
    requires
        doc_in_range(d),
        d.version > CURRENT_VERSION as int,
    ensures
        parse_doc(enc_doc(d)) == Err::<UserDataView, Error>(
            Error::VersionMismatch { expected: CURRENT_VERSION, actual: d.version as u32 },
        ),
{
    lemma_parse_enc_doc(d);
}


// ---------------------------------------------------------------------------
// Executable encoding
// ---------------------------------------------------------------------------

fn push_hex_digit(out: &mut String, d: u8)
    requires
        d < 16,
    ensures
        final(out)@ == old(out)@.push(hex_digit(d as int)),
{
    proof {
        reveal_strlit("0");
        reveal_strlit("1");
        reveal_strlit("2");
        reveal_strlit("3");
        reveal_strlit("4");
        reveal_strlit("5");
        reveal_strlit("6");
        reveal_strlit("7");
        reveal_strlit("8");
        reveal_strlit("9");
        reveal_strlit("a");
        reveal_strlit("b");
        reveal_strlit("c");
        reveal_strlit("d");
        reveal_strlit("e");
        reveal_strlit("f");
    }
    let ghost pre = out@;
    if d == 0 {
        out.append("0");
    } else if d == 1 {
        out.append("1");
    } else if d == 2 {
        out.append("2");
    } else if d == 3 {
        out.append("3");
    } else if d == 4 {
        out.append("4");
    } else if d == 5 {
        out.append("5");
    } else if d == 6 {
        out.append("6");
    } else if d == 7 {
        out.append("7");
    } else if d == 8 {
        out.append("8");
    } else if d == 9 {
        out.append("9");
    } else if d == 10 {
        out.append("a");
    } else if d == 11 {
        out.append("b");
    } else if d == 12 {
        out.append("c");
    } else if d == 13 {
        out.append("d");
    } else if d == 14 {
        out.append("e");
    } else {
        out.append("f");
    }
    proof {
        assert(out@ =~= pre.push(hex_digit(d as int)));
    }
}

/// Append a number as `width` digits, most significant first.
fn push_nat(out: &mut String, n: u64, width: u8)
    ensures
        final(out)@ == old(out)@ + enc_nat(n as int, width as nat),
    decreases width,
{
    let ghost pre = out@;
    if width == 0 {
        proof {
            assert(pre + enc_nat(n as int, 0) =~= pre);
        }
    } else {
        push_nat(out, n / 16, width - 1);
        push_hex_digit(out, (n % 16) as u8);
        proof {
            assert(n as int / 16 == (n / 16) as int);
            assert(out@ =~= pre + enc_nat(n as int, width as nat));
        }
    }
}

/// Append a length-prefixed string field.
fn push_str_field(out: &mut String, s: &str)
    ensures
        final(out)@ == old(out)@ + enc_str(s@),
{
    let ghost pre = out@;
    let len = s.unicode_len();
    push_nat(out, len as u64, 16);
    out.append(s);
    proof {
        assert(out@ =~= pre + enc_str(s@));
    }
}

/// Append an absence/presence tag: '0' alone, or '1' before the value.
fn push_flag(out: &mut String, present: bool)
    ensures
        final(out)@ == old(out)@.push(
            if present {
                '1'
            } else {
                '0'
            },
        ),
{
    proof {
        reveal_strlit("0");
        reveal_strlit("1");
    }
    let ghost pre = out@;
    if present {
        out.append("1");
        proof {
            assert(out@ =~= pre.push('1'));
        }
    } else {
        out.append("0");
        proof {
            assert(out@ =~= pre.push('0'));
        }
    }
}

/// Append a signed timestamp, biased into the unsigned digit range.
fn push_i64(out: &mut String, t: i64)
    ensures
        final(out)@ == old(out)@ + enc_i64(t as int),
{
    let biased: u64 = ((t as i128) + 0x8000_0000_0000_0000i128) as u64;
    proof {
        assert(biased as int == t as int + 0x8000_0000_0000_0000);
    }
    push_nat(out, biased, 16);
}

fn push_network(out: &mut String, v: &Network)
    ensures
        final(out)@ == old(out)@ + enc_network(v@),
{
    let ghost pre = out@;
    push_nat(out, v.id as u64, 16);
    push_str_field(out, v.name.as_str());
    proof {
        assert(out@ =~= pre + enc_network(v@));
    }
}

fn push_status(out: &mut String, st: Status)
    ensures
        final(out)@ == old(out)@.push(status_char(st)),
{
    proof {
        reveal_strlit("0");
        reveal_strlit("1");
        reveal_strlit("2");
        reveal_strlit("3");
    }
    let ghost pre = out@;
    match st {
        Status::ToBeDetermined => out.append("0"),
        Status::InDevelopment => out.append("1"),
        Status::Running => out.append("2"),
        Status::Ended => out.append("3"),
    }
    proof {
        assert(out@ =~= pre.push(status_char(st)));
    }
}

fn push_day(out: &mut String, d: Day)
    ensures
        final(out)@ == old(out)@.push(day_char(d)),
{
    proof {
        reveal_strlit("0");
        reveal_strlit("1");
        reveal_strlit("2");
        reveal_strlit("3");
        reveal_strlit("4");
        reveal_strlit("5");
        reveal_strlit("6");
    }
    let ghost pre = out@;
    match d {
        Day::Monday => out.append("0"),
        Day::Tuesday => out.append("1"),
        Day::Wednesday => out.append("2"),
        Day::Thursday => out.append("3"),
        Day::Friday => out.append("4"),
        Day::Saturday => out.append("5"),
        Day::Sunday => out.append("6"),
    }
    proof {
        assert(out@ =~= pre.push(day_char(d)));
    }
}

#[verifier::loop_isolation(false)]
fn push_days(out: &mut String, ds: &Vec<Day>)
    ensures
        final(out)@ == old(out)@ + enc_days(ds@),
{
    let ghost pre = out@;
    let n = ds.len();
    push_nat(out, n as u64, 16);
    let ghost m = ds@.map_values(|d: Day| day_char(d));
    let mut i: usize = 0;
    while i < n
        invariant
            i <= n,
            n == ds@.len(),
            out@ == pre + enc_nat(n as int, 16) + m.subrange(0, i as int),
        decreases n - i,
    {
        push_day(out, ds[i]);
        proof {
            assert(m.subrange(0, i as int + 1) =~= m.subrange(0, i as int).push(m[i as int]));
            assert(out@ =~= pre + enc_nat(n as int, 16) + m.subrange(0, i as int + 1));
        }
        i += 1;
    }
    proof {
        assert(m.subrange(0, n as int) =~= m);
        assert(out@ =~= pre + enc_days(ds@));
    }
}

#[verifier::rlimit(100)]
fn push_show(out: &mut String, v: &Show)
    ensures
        final(out)@ == old(out)@ + enc_show(v@),
{
    let ghost pre = out@;
    push_nat(out, v.id as u64, 16);
    push_str_field(out, v.name.as_str());
    match &v.language {
        None => push_flag(out, false),
        Some(l) => {
            push_flag(out, true);
            push_str_field(out, l.as_str());
        },
    }
    match &v.network {
        None => push_flag(out, false),
        Some(n) => {
            push_flag(out, true);
            push_network(out, n);
        },
    }
    match &v.web_channel {
        None => push_flag(out, false),
        Some(n) => {
            push_flag(out, true);
            push_network(out, n);
        },
    }
    push_status(out, v.status);
    match v.runtime {
        None => push_flag(out, false),
        Some(r) => {
            push_flag(out, true);
            push_nat(out, r as u64, 16);
        },
    }
    push_days(out, &v.schedule.days);
    push_nat(out, v.last_updated, 16);
    push_nat(out, v.last_watched_episode.0 as u64, 16);
    push_nat(out, v.last_watched_episode.1 as u64, 16);
    proof {
        assert(out@ =~= pre + enc_show(v@));
    }
}

#[verifier::rlimit(100)]
fn push_episode(out: &mut String, v: &Episode)
    ensures
        final(out)@ == old(out)@ + enc_episode(v@),
{
    let ghost pre = out@;
    push_nat(out, v.episode_id as u64, 16);
    push_nat(out, v.show_id as u64, 16);
    push_str_field(out, v.name.as_str());
    push_nat(out, v.season as u64, 16);
    push_nat(out, v.number as u64, 16);
    match v.airstamp {
        None => push_flag(out, false),
        Some(t) => {
            push_flag(out, true);
            push_i64(out, t);
        },
    }
    push_nat(out, v.runtime as u64, 16);
    push_flag(out, v.watched);
    proof {
        assert(out@ =~= pre + enc_episode(v@));
    }
}

proof fn lemma_enc_shows_snoc(vs: Seq<ShowView>, v: ShowView)
    ensures
        enc_shows(vs.push(v)) == enc_shows(vs) + enc_show(v),
    decreases vs.len(),
{
    if vs.len() == 0 {
        assert(vs.push(v)[0] == v);
        assert(vs.push(v).drop_first() =~= Seq::<ShowView>::empty());
        assert(vs =~= Seq::<ShowView>::empty());
        assert(enc_shows(Seq::<ShowView>::empty()) == Seq::<char>::empty());
        assert(enc_shows(vs.push(v)) == enc_show(v) + Seq::<char>::empty());
        assert(enc_shows(vs.push(v)) =~= enc_shows(vs) + enc_show(v));
    } else {
        assert(vs.push(v)[0] == vs[0]);
        assert(vs.push(v).drop_first() =~= vs.drop_first().push(v));
        lemma_enc_shows_snoc(vs.drop_first(), v);
        assert(enc_shows(vs.push(v)) == enc_show(vs[0]) + (enc_shows(vs.drop_first()) + enc_show(
            v,
        )));
        vstd::seq_lib::lemma_concat_associative(
            enc_show(vs[0]),
            enc_shows(vs.drop_first()),
            enc_show(v),
        );
    }
}

proof fn lemma_enc_episodes_snoc(vs: Seq<EpisodeView>, v: EpisodeView)
    ensures
        enc_episodes(vs.push(v)) == enc_episodes(vs) + enc_episode(v),
    decreases vs.len(),
{
    if vs.len() == 0 {
        assert(vs.push(v)[0] == v);
        assert(vs.push(v).drop_first() =~= Seq::<EpisodeView>::empty());
        assert(vs =~= Seq::<EpisodeView>::empty());
        assert(enc_episodes(Seq::<EpisodeView>::empty()) == Seq::<char>::empty());
        assert(enc_episodes(vs.push(v)) == enc_episode(v) + Seq::<char>::empty());
        assert(enc_episodes(vs.push(v)) =~= enc_episodes(vs) + enc_episode(v));
    } else {
        assert(vs.push(v)[0] == vs[0]);
        assert(vs.push(v).drop_first() =~= vs.drop_first().push(v));
        lemma_enc_episodes_snoc(vs.drop_first(), v);
        assert(enc_episodes(vs.push(v)) == enc_episode(vs[0]) + (enc_episodes(vs.drop_first())
            + enc_episode(v)));
        vstd::seq_lib::lemma_concat_associative(
            enc_episode(vs[0]),
            enc_episodes(vs.drop_first()),
            enc_episode(v),
        );
    }
}

/// Serialize the whole store as one document text.
#[verifier::loop_isolation(false)]
pub fn encode_document(data: &UserData) -> (r: String)
    ensures
        r@ == enc_doc(data@),
{
    let mut out = String::new();
    push_nat(&mut out, data.version() as u64, 8);
    let shows = data.subscribed_shows();
    let episodes = data.unwatched_episodes();
    let ghost sv = data@.subscribed_shows;
    let ghost ev = data@.unwatched_episodes;
    let ns = shows.len();
    push_nat(&mut out, ns as u64, 16);
    let ghost head = enc_nat(data@.version, 8) + enc_nat(sv.len() as int, 16);
    proof {
        assert(out@ =~= head + enc_shows(sv.subrange(0, 0)));
    }
    let mut i: usize = 0;
    while i < ns
        invariant
            i <= ns,
            out@ == head + enc_shows(sv.subrange(0, i as int)),
        decreases ns - i,
    {
        push_show(&mut out, &shows[i]);
        proof {
            assert(sv.subrange(0, i as int + 1) =~= sv.subrange(0, i as int).push(sv[i as int]));
            lemma_enc_shows_snoc(sv.subrange(0, i as int), sv[i as int]);
            assert(shows@[i as int]@ == sv[i as int]);
            vstd::seq_lib::lemma_concat_associative(
                head,
                enc_shows(sv.subrange(0, i as int)),
                enc_show(sv[i as int]),
            );
        }
        i += 1;
    }
    proof {
        assert(sv.subrange(0, ns as int) =~= sv);
    }
    let ne = episodes.len();
    push_nat(&mut out, ne as u64, 16);
    let ghost head2 = head + enc_shows(sv) + enc_nat(ev.len() as int, 16);
    proof {
        assert(out@ =~= head2 + enc_episodes(ev.subrange(0, 0)));
    }
    let mut j: usize = 0;
    while j < ne
        invariant
            j <= ne,
            out@ == head2 + enc_episodes(ev.subrange(0, j as int)),
        decreases ne - j,
    {
        push_episode(&mut out, &episodes[j]);
        proof {
            assert(ev.subrange(0, j as int + 1) =~= ev.subrange(0, j as int).push(ev[j as int]));
            lemma_enc_episodes_snoc(ev.subrange(0, j as int), ev[j as int]);
            assert(episodes@[j as int]@ == ev[j as int]);
            vstd::seq_lib::lemma_concat_associative(
                head2,
                enc_episodes(ev.subrange(0, j as int)),
                enc_episode(ev[j as int]),
            );
        }
        j += 1;
    }
    proof {
        assert(ev.subrange(0, ne as int) =~= ev);
        assert(out@ =~= enc_doc(data@));
    }
    out
}


// ---------------------------------------------------------------------------
// Executable parsing
// ---------------------------------------------------------------------------

proof fn lemma_pow16_mono(a: nat, b: nat)
    requires
        a <= b,
    ensures
        0 < pow16(a) <= pow16(b),
    decreases b,
{
    if b > 0 && a < b {
        lemma_pow16_mono(a, (b - 1) as nat);
    } else if b > 0 {
        lemma_pow16_mono((a - 1) as nat, (b - 1) as nat);
    }
}

fn hex_val_exec(c: char) -> (r: u8)
    ensures
        r as int == hex_val(c),
{
    if c == '0' {
        0
    } else if c == '1' {
        1
    } else if c == '2' {
        2
    } else if c == '3' {
        3
    } else if c == '4' {
        4
    } else if c == '5' {
        5
    } else if c == '6' {
        6
    } else if c == '7' {
        7
    } else if c == '8' {
        8
    } else if c == '9' {
        9
    } else if c == 'a' {
        10
    } else if c == 'b' {
        11
    } else if c == 'c' {
        12
    } else if c == 'd' {
        13
    } else if c == 'e' {
        14
    } else if c == 'f' {
        15
    } else {
        16
    }
}

/// Read a fixed-width number field.
#[verifier::loop_isolation(false)]
fn parse_nat_exec(s: &str, len: usize, pos: usize, width: u8) -> (r: Option<(u64, usize)>)
    requires
        len == s@.len(),
        width <= 16,
    ensures
        match r {
            Some(vp) => parse_nat_at(s@, pos as int, width as nat) == Some(
                (vp.0 as int, vp.1 as int),
            ) && vp.1 <= len,
            None => parse_nat_at(s@, pos as int, width as nat).is_none(),
        },
{
    if pos > len || len - pos < width as usize {
        return None;
    }
    let mut acc: u64 = 0;
    let mut j: usize = 0;
    proof {
        lemma_pow16_values();
        assert(s@.subrange(pos as int, pos as int) =~= Seq::<char>::empty());
    }
    while j < width as usize
        invariant
            j <= width as usize,
            acc as int == dec_nat(s@.subrange(pos as int, pos as int + j as int)),
            all_hex(s@.subrange(pos as int, pos as int + j as int)),
            acc < pow16(j as nat),
        decreases width as usize - j,
    {
        let c = s.get_char(pos + j);
        let d = hex_val_exec(c);
        let ghost prefix = s@.subrange(pos as int, pos as int + j as int);
        let ghost full = s@.subrange(pos as int, pos as int + width as int);
        if d >= 16 {
            proof {
                assert(full[j as int] == c);
                assert(!is_hex(full[j as int]));
                assert(!all_hex(full));
            }
            return None;
        }
        proof {
            lemma_pow16_mono(j as nat + 1, 16);
            assert(pow16(j as nat + 1) == 16 * pow16(j as nat));
            assert(acc * 16 + d < pow16(j as nat + 1)) by (nonlinear_arith)
                requires
                    acc < pow16(j as nat),
                    d < 16,
                    pow16(j as nat + 1) == 16 * pow16(j as nat),
            ;
            let ext = s@.subrange(pos as int, pos as int + j as int + 1);
            assert(ext.drop_last() =~= prefix);
            assert(ext.last() == c);
            assert(dec_nat(ext) == dec_nat(prefix) * 16 + hex_val(c));
            assert forall|k: int| 0 <= k < ext.len() implies is_hex(ext[k]) by {
                if k < j {
                    assert(ext[k] == prefix[k]);
                }
            }
        }
        acc = acc * 16 + d as u64;
        j += 1;
    }
    proof {
        assert(pos as int + width as int <= s@.len());
    }
    Some((acc, pos + width as usize))
}

/// Read a length-prefixed string field.
fn parse_str_exec(s: &str, len: usize, pos: usize) -> (r: Option<(String, usize)>)
    requires
        len == s@.len(),
    ensures
        match r {
            Some(vp) => parse_str_at(s@, pos as int) == Some((vp.0@, vp.1 as int)) && vp.1 <= len,
            None => parse_str_at(s@, pos as int).is_none(),
        },
{
    let (n, p1) = match parse_nat_exec(s, len, pos, 16) {
        Some(vp) => vp,
        None => {
            return None;
        },
    };
    if n > usize::MAX as u64 {
        return None;
    }
    let n_us = n as usize;
    if len - p1 < n_us {
        return None;
    }
    let sub = s.substring_char(p1, p1 + n_us);
    let t = sub.to_owned();
    Some((t, p1 + n_us))
}

/// Read a one-character tag, reporting presence.
fn parse_flag_exec(s: &str, len: usize, pos: usize) -> (r: Option<bool>)
    requires
        len == s@.len(),
    ensures
        match r {
            Some(b) => pos < len && s@[pos as int] == (if b {
                '1'
            } else {
                '0'
            }),
            None => pos >= len || (s@[pos as int] != '0' && s@[pos as int] != '1'),
        },
{
    if pos >= len {
        return None;
    }
    let c = s.get_char(pos);
    if c == '0' {
        Some(false)
    } else if c == '1' {
        Some(true)
    } else {
        None
    }
}

fn parse_network_exec(s: &str, len: usize, pos: usize) -> (r: Option<(Network, usize)>)
    requires
        len == s@.len(),
    ensures
        match r {
            Some(vp) => parse_network_at(s@, pos as int) == Some((vp.0@, vp.1 as int)) && vp.1
                <= len,
            None => parse_network_at(s@, pos as int).is_none(),
        },
{
    let (id, p1) = match parse_nat_exec(s, len, pos, 16) {
        Some(vp) => vp,
        None => {
            return None;
        },
    };
    if id > usize::MAX as u64 {
        return None;
    }
    let (name, p2) = match parse_str_exec(s, len, p1) {
        Some(vp) => vp,
        None => {
            return None;
        },
    };
    Some((Network { id: id as usize, name }, p2))
}

fn parse_status_exec(s: &str, len: usize, pos: usize) -> (r: Option<(Status, usize)>)
    requires
        len == s@.len(),
    ensures
        match r {
            Some(vp) => parse_status_at(s@, pos as int) == Some((vp.0, vp.1 as int)) && vp.1
                <= len,
            None => parse_status_at(s@, pos as int).is_none(),
        },
{
    if pos >= len {
        return None;
    }
    let c = s.get_char(pos);
    if c == '0' {
        Some((Status::ToBeDetermined, pos + 1))
    } else if c == '1' {
        Some((Status::InDevelopment, pos + 1))
    } else if c == '2' {
        Some((Status::Running, pos + 1))
    } else if c == '3' {
        Some((Status::Ended, pos + 1))
    } else {
        None
    }
}

fn parse_day_exec(c: char) -> (r: Option<Day>)
    ensures
        r == parse_day(c),
{
    if c == '0' {
        Some(Day::Monday)
    } else if c == '1' {
        Some(Day::Tuesday)
    } else if c == '2' {
        Some(Day::Wednesday)
    } else if c == '3' {
        Some(Day::Thursday)
    } else if c == '4' {
        Some(Day::Friday)
    } else if c == '5' {
        Some(Day::Saturday)
    } else if c == '6' {
        Some(Day::Sunday)
    } else {
        None
    }
}

#[verifier::loop_isolation(false)]
fn parse_days_exec(s: &str, len: usize, pos: usize) -> (r: Option<(Vec<Day>, usize)>)
    requires
        len == s@.len(),
    ensures
        match r {
            Some(vp) => parse_days_at(s@, pos as int) == Some((vp.0@, vp.1 as int)) && vp.1
                <= len,
            None => parse_days_at(s@, pos as int).is_none(),
        },
{
    let (n, p1) = match parse_nat_exec(s, len, pos, 16) {
        Some(vp) => vp,
        None => {
            return None;
        },
    };
    if n > usize::MAX as u64 {
        return None;
    }
    let count = n as usize;
    let mut acc: Vec<Day> = Vec::new();
    let mut cur = p1;
    let mut k: usize = 0;
    while k < count
        invariant
            k <= count,
            cur <= len,
            match parse_days_from(s@, cur as int, (count - k) as int) {
                Some(dp) => parse_days_from(s@, p1 as int, count as int) == Some(
                    (acc@ + dp.0, dp.1),
                ),
                None => parse_days_from(s@, p1 as int, count as int).is_none(),
            },
        decreases count - k,
    {
        if cur >= len {
            return None;
        }
        let c = s.get_char(cur);
        let d = match parse_day_exec(c) {
            Some(d) => d,
            None => {
                return None;
            },
        };
        let ghost acc_pre = acc@;
        acc.push(d);
        proof {
            match parse_days_from(s@, cur as int + 1, (count - k - 1) as int) {
                Some(dp) => {
                    assert(acc_pre + (seq![d] + dp.0) =~= acc@ + dp.0);
                },
                None => {},
            }
        }
        cur = cur + 1;
        k += 1;
    }
    proof {
        assert(parse_days_from(s@, cur as int, 0) == Some((Seq::<Day>::empty(), cur as int)));
        assert(acc@ + Seq::<Day>::empty() =~= acc@);
    }
    Some((acc, cur))
}


#[verifier::rlimit(100)]
fn parse_show_exec(s: &str, len: usize, pos: usize) -> (r: Option<(Show, usize)>)
    requires
        len == s@.len(),
    ensures
        match r {
            Some(vp) => parse_show_at(s@, pos as int) == Some((vp.0@, vp.1 as int)) && vp.1
                <= len,
            None => parse_show_at(s@, pos as int).is_none(),
        },
{
    proof {
        reveal(parse_show_at);
    }
    let (id, p1) = match parse_nat_exec(s, len, pos, 16) {
        Some(vp) => vp,
        None => {
            return None;
        },
    };
    if id > usize::MAX as u64 {
        return None;
    }
    let (name, p2) = match parse_str_exec(s, len, p1) {
        Some(vp) => vp,
        None => {
            return None;
        },
    };
    let language = match parse_flag_exec(s, len, p2) {
        None => {
            return None;
        },
        Some(false) => None,
        Some(true) => {
            match parse_str_exec(s, len, p2 + 1) {
                Some(vp) => Some(vp),
                None => {
                    return None;
                },
            }
        },
    };
    let p3 = match &language {
        None => p2 + 1,
        Some(vp) => vp.1,
    };
    let network = match parse_flag_exec(s, len, p3) {
        None => {
            return None;
        },
        Some(false) => None,
        Some(true) => {
            match parse_network_exec(s, len, p3 + 1) {
                Some(vp) => Some(vp),
                None => {
                    return None;
                },
            }
        },
    };
    let p4 = match &network {
        None => p3 + 1,
        Some(vp) => vp.1,
    };
    let web_channel = match parse_flag_exec(s, len, p4) {
        None => {
            return None;
        },
        Some(false) => None,
        Some(true) => {
            match parse_network_exec(s, len, p4 + 1) {
                Some(vp) => Some(vp),
                None => {
                    return None;
                },
            }
        },
    };
    let p5 = match &web_channel {
        None => p4 + 1,
        Some(vp) => vp.1,
    };
    let (status, p6) = match parse_status_exec(s, len, p5) {
        Some(vp) => vp,
        None => {
            return None;
        },
    };
    let runtime = match parse_flag_exec(s, len, p6) {
        None => {
            return None;
        },
        Some(false) => None,
        Some(true) => {
            match parse_nat_exec(s, len, p6 + 1, 16) {
                Some(vp) => {
                    if vp.0 > usize::MAX as u64 {
                        return None;
                    }
                    Some(vp)
                },
                None => {
                    return None;
                },
            }
        },
    };
    let p7 = match &runtime {
        None => p6 + 1,
        Some(vp) => vp.1,
    };
    let (days, p8) = match parse_days_exec(s, len, p7) {
        Some(vp) => vp,
        None => {
            return None;
        },
    };
    let (last_updated, p9) = match parse_nat_exec(s, len, p8, 16) {
        Some(vp) => vp,
        None => {
            return None;
        },
    };
    let (lw0, p10) = match parse_nat_exec(s, len, p9, 16) {
        Some(vp) => vp,
        None => {
            return None;
        },
    };
    if lw0 > usize::MAX as u64 {
        return None;
    }
    let (lw1, p11) = match parse_nat_exec(s, len, p10, 16) {
        Some(vp) => vp,
        None => {
            return None;
        },
    };
    if lw1 > usize::MAX as u64 {
        return None;
    }
    let show = Show {
        id: id as usize,
        name,
        language: match language {
            None => None,
            Some(vp) => Some(vp.0),
        },
        network: match network {
            None => None,
            Some(vp) => Some(vp.0),
        },
        web_channel: match web_channel {
            None => None,
            Some(vp) => Some(vp.0),
        },
        status,
        runtime: match runtime {
            None => None,
            Some(vp) => Some(vp.0 as usize),
        },
        schedule: Schedule { days },
        last_updated,
        last_watched_episode: (lw0 as usize, lw1 as usize),
    };
    Some((show, p11))
}

#[verifier::rlimit(100)]
fn parse_episode_exec(s: &str, len: usize, pos: usize) -> (r: Option<(Episode, usize)>)
    requires
        len == s@.len(),
    ensures
        match r {
            Some(vp) => parse_episode_at(s@, pos as int) == Some((vp.0@, vp.1 as int)) && vp.1
                <= len,
            None => parse_episode_at(s@, pos as int).is_none(),
        },
{
    proof {
        reveal(parse_episode_at);
    }
    let (episode_id, p1) = match parse_nat_exec(s, len, pos, 16) {
        Some(vp) => vp,
        None => {
            return None;
        },
    };
    if episode_id > usize::MAX as u64 {
        return None;
    }
    let (show_id, p2) = match parse_nat_exec(s, len, p1, 16) {
        Some(vp) => vp,
        None => {
            return None;
        },
    };
    if show_id > usize::MAX as u64 {
        return None;
    }
    let (name, p3) = match parse_str_exec(s, len, p2) {
        Some(vp) => vp,
        None => {
            return None;
        },
    };
    let (season, p4) = match parse_nat_exec(s, len, p3, 16) {
        Some(vp) => vp,
        None => {
            return None;
        },
    };
    if season > usize::MAX as u64 {
        return None;
    }
    let (number, p5) = match parse_nat_exec(s, len, p4, 16) {
        Some(vp) => vp,
        None => {
            return None;
        },
    };
    if number > usize::MAX as u64 {
        return None;
    }
    let airstamp = match parse_flag_exec(s, len, p5) {
        None => {
            return None;
        },
        Some(false) => None,
        Some(true) => {
            match parse_nat_exec(s, len, p5 + 1, 16) {
                Some(vp) => {
                    let t = ((vp.0 as i128) - 0x8000_0000_0000_0000i128) as i64;
                    proof {
                        assert(t as int == vp.0 as int - 0x8000_0000_0000_0000);
                    }
                    Some((t, vp.1))
                },
                None => {
                    return None;
                },
            }
        },
    };
    let p6 = match &airstamp {
        None => p5 + 1,
        Some(vp) => vp.1,
    };
    let (runtime, p7) = match parse_nat_exec(s, len, p6, 16) {
        Some(vp) => vp,
        None => {
            return None;
        },
    };
    if runtime > usize::MAX as u64 {
        return None;
    }
    let watched = match parse_flag_exec(s, len, p7) {
        None => {
            return None;
        },
        Some(b) => b,
    };
    let episode = Episode {
        episode_id: episode_id as usize,
        show_id: show_id as usize,
        name,
        season: season as usize,
        number: number as usize,
        airstamp: match airstamp {
            None => None,
            Some(vp) => Some(vp.0),
        },
        runtime: runtime as usize,
        watched,
    };
    Some((episode, p7 + 1))
}

#[verifier::loop_isolation(false)]
fn parse_shows_exec(s: &str, len: usize, pos: usize, count: usize) -> (r: Option<
    (Vec<Show>, usize),
>)
    requires
        len == s@.len(),
        pos <= len,
    ensures
        match r {
            Some(vp) => parse_shows_from(s@, pos as int, count as int) == Some(
                (crate::tvmaze_api::show_views(vp.0@), vp.1 as int),
            ) && vp.1 <= len,
            None => parse_shows_from(s@, pos as int, count as int).is_none(),
        },
{
    let mut acc: Vec<Show> = Vec::new();
    let mut cur = pos;
    let mut k: usize = 0;
    while k < count
        invariant
            k <= count,
            cur <= len,
            match parse_shows_from(s@, cur as int, (count - k) as int) {
                Some(vp) => parse_shows_from(s@, pos as int, count as int) == Some(
                    (crate::tvmaze_api::show_views(acc@) + vp.0, vp.1),
                ),
                None => parse_shows_from(s@, pos as int, count as int).is_none(),
            },
        decreases count - k,
    {
        let (v, p) = match parse_show_exec(s, len, cur) {
            Some(vp) => vp,
            None => {
                return None;
            },
        };
        let ghost acc_pre = acc@;
        acc.push(v);
        proof {
            match parse_shows_from(s@, p as int, (count - k - 1) as int) {
                Some(vp) => {
                    assert(crate::tvmaze_api::show_views(acc_pre) + (seq![v@] + vp.0)
                        =~= crate::tvmaze_api::show_views(acc@) + vp.0);
                },
                None => {},
            }
        }
        cur = p;
        k += 1;
    }
    proof {
        assert(parse_shows_from(s@, cur as int, 0) == Some((Seq::<ShowView>::empty(), cur as int)));
        assert(crate::tvmaze_api::show_views(acc@) + Seq::<ShowView>::empty()
            =~= crate::tvmaze_api::show_views(acc@));
    }
    Some((acc, cur))
}

#[verifier::loop_isolation(false)]
fn parse_episodes_exec(s: &str, len: usize, pos: usize, count: usize) -> (r: Option<
    (Vec<Episode>, usize),
>)
    requires
        len == s@.len(),
        pos <= len,
    ensures
        match r {
            Some(vp) => parse_episodes_from(s@, pos as int, count as int) == Some(
                (crate::tvmaze_api::episode_views(vp.0@), vp.1 as int),
            ) && vp.1 <= len,
            None => parse_episodes_from(s@, pos as int, count as int).is_none(),
        },
{
    let mut acc: Vec<Episode> = Vec::new();
    let mut cur = pos;
    let mut k: usize = 0;
    while k < count
        invariant
            k <= count,
            cur <= len,
            match parse_episodes_from(s@, cur as int, (count - k) as int) {
                Some(vp) => parse_episodes_from(s@, pos as int, count as int) == Some(
                    (crate::tvmaze_api::episode_views(acc@) + vp.0, vp.1),
                ),
                None => parse_episodes_from(s@, pos as int, count as int).is_none(),
            },
        decreases count - k,
    {
        let (v, p) = match parse_episode_exec(s, len, cur) {
            Some(vp) => vp,
            None => {
                return None;
            },
        };
        let ghost acc_pre = acc@;
        acc.push(v);
        proof {
            match parse_episodes_from(s@, p as int, (count - k - 1) as int) {
                Some(vp) => {
                    assert(crate::tvmaze_api::episode_views(acc_pre) + (seq![v@] + vp.0)
                        =~= crate::tvmaze_api::episode_views(acc@) + vp.0);
                },
                None => {},
            }
        }
        cur = p;
        k += 1;
    }
    proof {
        assert(parse_episodes_from(s@, cur as int, 0) == Some(
            (Seq::<EpisodeView>::empty(), cur as int),
        ));
        assert(crate::tvmaze_api::episode_views(acc@) + Seq::<EpisodeView>::empty()
            =~= crate::tvmaze_api::episode_views(acc@));
    }
    Some((acc, cur))
}


/// Whether the decoded show list satisfies the store's order invariant.
#[verifier::loop_isolation(false)]
fn check_shows_sorted(v: &Vec<Show>) -> (r: bool)
    ensures
        r == crate::user_data::shows_sorted_unique(crate::tvmaze_api::show_views(v@)),
{
    let ghost sv = crate::tvmaze_api::show_views(v@);
    let n = v.len();
    let mut i: usize = 1;
    while i < n
        invariant
            1 <= i,
            forall|a: int, b: int| 0 <= a < b < i ==> sv[a].id < sv[b].id,
        decreases n - i,
    {
        if v[i - 1].id >= v[i].id {
            proof {
                assert(!(sv[i as int - 1].id < sv[i as int].id));
            }
            return false;
        }
        proof {
            assert forall|a: int, b: int| 0 <= a < b < i + 1 implies sv[a].id < sv[b].id by {
                if b == i {
                    if a < i - 1 {
                        assert(sv[a].id < sv[i as int - 1].id);
                    }
                }
            }
        }
        i += 1;
    }
    true
}

/// Whether the decoded episode list is sorted by (show id, season, number).
#[verifier::loop_isolation(false)]
fn check_episodes_sorted(v: &Vec<Episode>) -> (r: bool)
    ensures
        r == crate::user_data::episodes_sorted(crate::tvmaze_api::episode_views(v@)),
{
    let ghost ev = crate::tvmaze_api::episode_views(v@);
    let n = v.len();
    let mut i: usize = 1;
    while i < n
        invariant
            1 <= i,
            forall|a: int, b: int|
                0 <= a < b < i ==> crate::tvmaze_api::episode_order_le(ev[a], ev[b]),
        decreases n - i,
    {
        let a = &v[i - 1];
        let b = &v[i];
        let le = if a.show_id != b.show_id {
            a.show_id < b.show_id
        } else if a.season != b.season {
            a.season < b.season
        } else {
            a.number <= b.number
        };
        if !le {
            proof {
                assert(!crate::tvmaze_api::episode_order_le(ev[i as int - 1], ev[i as int]));
            }
            return false;
        }
        proof {
            assert forall|x: int, y: int|
                0 <= x < y < i + 1 implies crate::tvmaze_api::episode_order_le(ev[x], ev[y]) by {
                if y == i {
                    if x < i - 1 {
                        assert(crate::tvmaze_api::episode_order_le(ev[x], ev[i as int - 1]));
                    }
                }
            }
        }
        i += 1;
    }
    true
}

/// Whether no two decoded episodes share an identity key.
#[verifier::loop_isolation(false)]
fn check_episodes_unique(v: &Vec<Episode>) -> (r: bool)
    ensures
        r == crate::user_data::episodes_unique(crate::tvmaze_api::episode_views(v@)),
{
    let ghost ev = crate::tvmaze_api::episode_views(v@);
    let n = v.len();
    let mut i: usize = 0;
    while i < n
        invariant
            i <= n,
            forall|a: int, b: int|
                0 <= a < b < ev.len() && b < i ==> !crate::tvmaze_api::same_episode_key(
                    ev[a],
                    ev[b],
                ),
        decreases n - i,
    {
        let mut j: usize = 0;
        while j < i
            invariant
                j <= i < n,
                forall|a: int| 0 <= a < j ==> !crate::tvmaze_api::same_episode_key(
                    ev[a],
                    ev[i as int],
                ),
            decreases i - j,
        {
            if v[j].episode_id == v[i].episode_id && v[j].show_id == v[i].show_id {
                proof {
                    assert(crate::tvmaze_api::same_episode_key(ev[j as int], ev[i as int]));
                }
                return false;
            }
            j += 1;
        }
        i += 1;
    }
    true
}

/// How the executable load result mirrors the document specification.
pub open spec fn parse_result_matches(
    r: Result<UserData, Error>,
    spec_r: Result<UserDataView, Error>,
) -> bool {
    match (r, spec_r) {
        (Ok(d), Ok(v)) => d@ == v && d.wf(),
        (Err(a), Err(b)) => a == b,
        _ => false,
    }
}

/// Decode a store from one document text. The version field is read and
/// gated before anything else; a version this build does not know is the
/// distinguished mismatch error, and nothing of the document is taken over.
#[verifier::rlimit(100)]
pub fn parse_document(text: &str) -> (r: Result<UserData, Error>)
    ensures
        parse_result_matches(r, parse_doc(text@)),
{
    let len = text.unicode_len();
    let (ver, p1) = match parse_nat_exec(text, len, 0, 8) {
        Some(vp) => vp,
        None => {
            return Err(Error::Malformed);
        },
    };
    proof {
        lemma_pow16_values();
        lemma_dec_nat_bound(text@.subrange(0, 8));
    }
    if ver > CURRENT_VERSION as u64 {
        return Err(Error::VersionMismatch { expected: CURRENT_VERSION, actual: ver as u32 });
    }
    let (nshows, p2) = match parse_nat_exec(text, len, p1, 16) {
        Some(vp) => vp,
        None => {
            return Err(Error::Malformed);
        },
    };
    if nshows > usize::MAX as u64 {
        return Err(Error::Malformed);
    }
    let (shows, p3) = match parse_shows_exec(text, len, p2, nshows as usize) {
        Some(vp) => vp,
        None => {
            return Err(Error::Malformed);
        },
    };
    let (neps, p4) = match parse_nat_exec(text, len, p3, 16) {
        Some(vp) => vp,
        None => {
            return Err(Error::Malformed);
        },
    };
    if neps > usize::MAX as u64 {
        return Err(Error::Malformed);
    }
    let (episodes, p5) = match parse_episodes_exec(text, len, p4, neps as usize) {
        Some(vp) => vp,
        None => {
            return Err(Error::Malformed);
        },
    };
    if p5 != len {
        return Err(Error::Malformed);
    }
    if !check_shows_sorted(&shows) {
        return Err(Error::Malformed);
    }
    if !check_episodes_sorted(&episodes) {
        return Err(Error::Malformed);
    }
    if !check_episodes_unique(&episodes) {
        return Err(Error::Malformed);
    }
    let data = UserData::from_parts(ver as u32, shows, episodes);
    Ok(data)
}

} // verus!
