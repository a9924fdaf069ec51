//! Value types describing shows and episodes as the catalog reports them,
//! together with the identity and ordering rules the progress store relies on.

use vstd::prelude::*;

verus! {

/// A broadcast network or web channel attached to a show.
#[derive(Clone, Debug)]
pub struct Network {
    pub id: usize,
    pub name: String,
}

/// Mathematical value of a `Network`.
pub ghost struct NetworkView {
    pub id: int,
    pub name: Seq<char>,
}

impl View for Network {
    type V = NetworkView;

    open spec fn view(&self) -> NetworkView {
        NetworkView { id: self.id as int, name: self.name@ }
    }
}

/// A weekday of a show's broadcast schedule.
#[derive(Clone, Copy, Debug, PartialEq, Eq, Structural)]
pub enum Day {
    Monday,
    Tuesday,
    Wednesday,
    Thursday,
    Friday,
    Saturday,
    Sunday,
}

/// The weekdays a show is broadcast on.
#[derive(Clone, Debug)]
pub struct Schedule {
    pub days: Vec<Day>,
}

/// Lifecycle status of a show, as the catalog reports it.
#[derive(Clone, Copy, Debug, PartialEq, Eq, Structural)]
pub enum Status {
    ToBeDetermined,
    InDevelopment,
    Running,
    Ended,
}

/// A subscribed episodic series. Identity is the catalog id alone; all other
/// fields are metadata that a sync may rewrite. `last_watched_episode` is the
/// watch pointer: the highest `(season, number)` confirmed watched with no
/// unwatched episode before it.
#[derive(Debug)]
pub struct Show {
    pub id: usize,
    pub name: String,
    pub language: Option<String>,
    pub network: Option<Network>,
    pub web_channel: Option<Network>,
    pub status: Status,
    pub runtime: Option<usize>,
    pub schedule: Schedule,
    pub last_updated: u64,
    pub last_watched_episode: (usize, usize),
}

/// Mathematical value of a `Show`.
pub ghost struct ShowView {
    pub id: int,
    pub name: Seq<char>,
    pub language: Option<Seq<char>>,
    pub network: Option<NetworkView>,
    pub web_channel: Option<NetworkView>,
    pub status: Status,
    pub runtime: Option<int>,
    pub schedule_days: Seq<Day>,
    pub last_updated: int,
    pub last_watched_episode: (int, int),
}

impl View for Show {
    type V = ShowView;

    open spec fn view(&self) -> ShowView {
        ShowView {
            id: self.id as int,
            name: self.name@,
            language: match self.language {
                Some(s) => Some(s@),
                None => None,
            },
            network: match self.network {
                Some(n) => Some(n@),
                None => None,
            },
            web_channel: match self.web_channel {
                Some(n) => Some(n@),
                None => None,
            },
            status: self.status,
            runtime: match self.runtime {
                Some(r) => Some(r as int),
                None => None,
            },
            schedule_days: self.schedule.days@,
            last_updated: self.last_updated as int,
            last_watched_episode: (
                self.last_watched_episode.0 as int,
                self.last_watched_episode.1 as int,
            ),
        }
    }
}

impl PartialEq for Show {
    /// Shows are equal exactly when their catalog ids are.
    fn eq(&self, other: &Show) -> (r: bool) {
        self.id == other.id
    }
}

impl vstd::std_specs::cmp::PartialEqSpecImpl for Show {
    open spec fn obeys_eq_spec() -> bool {
        true
    }

    open spec fn eq_spec(&self, other: &Show) -> bool {
        self.id == other.id
    }
}

impl Show {
    /// The name to display for the place a show runs on: the network if one is
    /// known, else the web channel, else "Unknown".
    pub open spec fn spec_network_name(self) -> Seq<char> {
        match self.network {
            Some(n) => n.name@,
            None => match self.web_channel {
                Some(c) => c.name@,
                None => "Unknown"@,
            },
        }
    }

    pub fn network_name(&self) -> (r: &str)
        ensures
            r@ == self.spec_network_name(),
    {
        match &self.network {
            Some(network) => network.name.as_str(),
            None => match &self.web_channel {
                Some(channel) => channel.name.as_str(),
                None => "Unknown",
            },
        }
    }
}

/// One numbered installment of a show. Identity is the pair
/// `(episode_id, show_id)`; `airstamp` is the Unix timestamp (seconds) of the
/// air date, absent when the catalog has not scheduled the episode yet.
#[derive(Clone, Debug)]
pub struct Episode {
    pub episode_id: usize,
    pub show_id: usize,
    pub name: String,
    pub season: usize,
    pub number: usize,
    pub airstamp: Option<i64>,
    pub runtime: usize,
    pub watched: bool,
}

/// Mathematical value of an `Episode`.
pub ghost struct EpisodeView {
    pub episode_id: int,
    pub show_id: int,
    pub name: Seq<char>,
    pub season: int,
    pub number: int,
    pub airstamp: Option<int>,
    pub runtime: int,
    pub watched: bool,
}

impl View for Episode {
    type V = EpisodeView;

    open spec fn view(&self) -> EpisodeView {
        EpisodeView {
            episode_id: self.episode_id as int,
            show_id: self.show_id as int,
            name: self.name@,
            season: self.season as int,
            number: self.number as int,
            airstamp: match self.airstamp {
                Some(t) => Some(t as int),
                None => None,
            },
            runtime: self.runtime as int,
            watched: self.watched,
        }
    }
}

impl PartialEq for Episode {
    /// Episodes are equal exactly when episode id and owning show id match.
    fn eq(&self, other: &Episode) -> (r: bool) {
        self.episode_id == other.episode_id && self.show_id == other.show_id
    }
}

impl vstd::std_specs::cmp::PartialEqSpecImpl for Episode {
    open spec fn obeys_eq_spec() -> bool {
        true
    }

    open spec fn eq_spec(&self, other: &Episode) -> bool {
        self.episode_id == other.episode_id && self.show_id == other.show_id
    }
}

/// Views of a sequence of shows, element by element.
pub open spec fn show_views(s: Seq<Show>) -> Seq<ShowView> {
    s.map_values(|x: Show| x@)
}

/// Views of a sequence of episodes, element by element.
pub open spec fn episode_views(s: Seq<Episode>) -> Seq<EpisodeView> {
    s.map_values(|x: Episode| x@)
}

/// Strict lexicographic order on `(season, number)` pairs.
pub open spec fn pair_lt(a: (int, int), b: (int, int)) -> bool {
    a.0 < b.0 || (a.0 == b.0 && a.1 < b.1)
}

/// Non-strict lexicographic order on `(season, number)` pairs.
pub open spec fn pair_le(a: (int, int), b: (int, int)) -> bool {
    a.0 < b.0 || (a.0 == b.0 && a.1 <= b.1)
}

/// The `(season, number)` pair of an episode.
pub open spec fn episode_pair(e: EpisodeView) -> (int, int) {
    (e.season, e.number)
}

/// Non-strict episode ordering: lexicographic by (show id, season, number).
pub open spec fn episode_order_le(a: EpisodeView, b: EpisodeView) -> bool {
    a.show_id < b.show_id || (a.show_id == b.show_id && pair_le(
        (a.season, a.number),
        (b.season, b.number),
    ))
}

/// Whether two episodes carry the same identity key.
pub open spec fn same_episode_key(a: EpisodeView, b: EpisodeView) -> bool {
    a.episode_id == b.episode_id && a.show_id == b.show_id
}

/// Whether an episode lies strictly after the `(season, number)` pair, in the
/// ordering of episodes of one show.
pub fn episode_is_greater_than(episode: &Episode, episode_number: (usize, usize)) -> (r: bool)
    ensures
        r == pair_lt(
            (episode_number.0 as int, episode_number.1 as int),
            episode_pair(episode@),
        ),
{
    if episode.season == episode_number.0 {
        episode.number > episode_number.1
    } else {
        episode.season > episode_number.0
    }
}

/// Whether an episode lies strictly before the `(season, number)` pair, in the
/// ordering of episodes of one show.
pub fn episode_is_less_than(episode: &Episode, episode_number: (usize, usize)) -> (r: bool)
    ensures
        r == pair_lt(
            episode_pair(episode@),
            (episode_number.0 as int, episode_number.1 as int),
        ),
{
    if episode.season == episode_number.0 {
        episode.number < episode_number.1
    } else {
        episode.season < episode_number.0
    }
}

/// Tag every episode of a freshly fetched list with the show it was requested
/// for. The catalog's raw episode records do not carry the owning show id, so
/// the client injects it per request.
pub fn assign_show_id(episodes: Vec<Episode>, show_id: usize) -> (r: Vec<Episode>)
    ensures
        r@.len() == episodes@.len(),
        forall|i: int|
            0 <= i < episodes@.len() ==> #[trigger] r@[i]@ == (EpisodeView {
                show_id: show_id as int,
                ..episodes@[i]@
            }),
{
    let mut rest = episodes;
    let mut out: Vec<Episode> = Vec::new();
    let ghost all = rest@;
    while rest.len() > 0
        invariant
            out@.len() + rest@.len() == all.len(),
            rest@ == all.subrange(out@.len() as int, all.len() as int),
            forall|i: int|
                0 <= i < out@.len() ==> #[trigger] out@[i]@ == (EpisodeView {
                    show_id: show_id as int,
                    ..all[i]@
                }),
        decreases rest@.len(),
    {
        let mut e = rest.remove(0);
        e.show_id = show_id;
        out.push(e);
    }
    out
}

} // verus!
