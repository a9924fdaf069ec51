//! The progress store: the persisted collection of subscribed shows and
//! unwatched episodes, and the watch-marking algorithm over it.
//!
//! Invariants of the store, kept by every operation:
//! - subscribed shows are sorted strictly by catalog id, so no two entries
//!   share an id;
//! - unwatched episodes are sorted by (show id, season, number) and no two
//!   entries share the identity key (episode id, show id).

use vstd::prelude::*;

use crate::tvmaze_api::Day;
use crate::tvmaze_api::Episode;
use crate::tvmaze_api::EpisodeView;
use crate::tvmaze_api::Network;
use crate::tvmaze_api::Schedule;
use crate::tvmaze_api::Show;
use crate::tvmaze_api::Status;
use crate::tvmaze_api::ShowView;
use crate::tvmaze_api::episode_is_greater_than;
use crate::tvmaze_api::episode_is_less_than;
use crate::tvmaze_api::episode_order_le;
use crate::tvmaze_api::episode_pair;
use crate::tvmaze_api::pair_le;
use crate::tvmaze_api::pair_lt;
use crate::tvmaze_api::episode_views;
use crate::tvmaze_api::same_episode_key;
use crate::tvmaze_api::show_views;

verus! {

/// The document version this build reads and writes.
pub const CURRENT_VERSION: u32 = 1;

/// The progress store. See the module doc for its invariants.
#[derive(Debug)]
pub struct UserData {
    version: u32,
    subscribed_shows: Vec<Show>,
    unwatched_episodes: Vec<Episode>,
}

/// Mathematical value of the store.
pub ghost struct UserDataView {
    pub version: int,
    pub subscribed_shows: Seq<ShowView>,
    pub unwatched_episodes: Seq<EpisodeView>,
}

impl View for UserData {
    type V = UserDataView;

    closed spec fn view(&self) -> UserDataView {
        UserDataView {
            version: self.version as int,
            subscribed_shows: show_views(self.subscribed_shows@),
            unwatched_episodes: episode_views(self.unwatched_episodes@),
        }
    }
}

/// Shows sorted strictly by id; strictness makes ids unique.
pub open spec fn shows_sorted_unique(s: Seq<ShowView>) -> bool {
    forall|i: int, j: int| 0 <= i < j < s.len() ==> s[i].id < s[j].id
}

/// Episodes sorted by (show id, season, number).
pub open spec fn episodes_sorted(s: Seq<EpisodeView>) -> bool {
    forall|i: int, j: int| 0 <= i < j < s.len() ==> episode_order_le(s[i], s[j])
}

/// No two episodes share the identity key (episode id, show id).
pub open spec fn episodes_unique(s: Seq<EpisodeView>) -> bool {
    forall|i: int, j: int| 0 <= i < j < s.len() ==> !same_episode_key(s[i], s[j])
}

/// Whether some subscribed show carries this id.
pub open spec fn show_id_present(s: Seq<ShowView>, id: int) -> bool {
    exists|i: int| 0 <= i < s.len() && s[i].id == id
}

/// Whether some stored episode shares this episode's identity key.
pub open spec fn episode_key_present(s: Seq<EpisodeView>, e: EpisodeView) -> bool {
    exists|i: int| 0 <= i < s.len() && same_episode_key(s[i], e)
}

/// Where a show with this id belongs in a sorted show list: after every
/// entry with a smaller id.
pub open spec fn show_insert_pos(s: Seq<ShowView>, id: int) -> int
    decreases s.len(),
{
    if s.len() == 0 {
        0
    } else if s[0].id < id {
        1 + show_insert_pos(s.drop_first(), id)
    } else {
        0
    }
}

/// Where an episode belongs in a sorted episode list: after every entry that
/// does not come strictly later, so an arriving episode lands behind entries
/// with an equal (show id, season, number).
pub open spec fn episode_insert_pos(s: Seq<EpisodeView>, e: EpisodeView) -> int
    decreases s.len(),
{
    if s.len() == 0 {
        0
    } else if episode_order_le(s[0], e) {
        1 + episode_insert_pos(s.drop_first(), e)
    } else {
        0
    }
}

/// Adding a show: no change when the id is already subscribed, else insertion
/// at its sorted position.
pub open spec fn add_show_spec(s: Seq<ShowView>, v: ShowView) -> Seq<ShowView> {
    if show_id_present(s, v.id) {
        s
    } else {
        s.insert(show_insert_pos(s, v.id), v)
    }
}

/// Adding one episode: no change when its identity key is already stored,
/// else insertion at its sorted position.
pub open spec fn add_episode_one(s: Seq<EpisodeView>, e: EpisodeView) -> Seq<EpisodeView> {
    if episode_key_present(s, e) {
        s
    } else {
        s.insert(episode_insert_pos(s, e), e)
    }
}

/// Adding a batch of episodes, one after the other in the order given.
pub open spec fn add_episodes_spec(s: Seq<EpisodeView>, new: Seq<EpisodeView>) -> Seq<EpisodeView>
    decreases new.len(),
{
    if new.len() == 0 {
        s
    } else {
        add_episodes_spec(add_episode_one(s, new[0]), new.drop_first())
    }
}

proof fn lemma_show_insert_pos_stops(s: Seq<ShowView>, i: int, id: int)
    requires
        0 <= i <= s.len(),
        forall|k: int| 0 <= k < i ==> s[k].id < id,
        i < s.len() ==> !(s[i].id < id),
    ensures
        show_insert_pos(s, id) == i,
    decreases s.len(),
{
    if i == 0 {
    } else {
        assert(s[0].id < id);
        lemma_show_insert_pos_stops(s.drop_first(), i - 1, id);
    }
}

proof fn lemma_episode_insert_pos_stops(s: Seq<EpisodeView>, i: int, e: EpisodeView)
    requires
        0 <= i <= s.len(),
        forall|k: int| 0 <= k < i ==> episode_order_le(s[k], e),
        i < s.len() ==> !episode_order_le(s[i], e),
    ensures
        episode_insert_pos(s, e) == i,
    decreases s.len(),
{
    if i == 0 {
    } else {
        assert(episode_order_le(s[0], e));
        lemma_episode_insert_pos_stops(s.drop_first(), i - 1, e);
    }
}

proof fn lemma_add_show_spec_wf(s: Seq<ShowView>, v: ShowView)
    requires
        shows_sorted_unique(s),
    ensures
        shows_sorted_unique(add_show_spec(s, v)),
        show_id_present(add_show_spec(s, v), v.id),
        add_show_spec(s, v).len() >= s.len(),
{
    if show_id_present(s, v.id) {
    } else {
        let p = show_insert_pos(s, v.id);
        lemma_show_insert_pos_props(s, v.id);
        let t = s.insert(p, v);
        assert(t[p] == v);
        assert forall|i: int, j: int| 0 <= i < j < t.len() implies t[i].id < t[j].id by {
            if j == p {
                assert(t[i] == s[i]);
            } else if i == p {
                assert(t[j] == s[j - 1]);
                assert(!(s[p].id < v.id));
                assert(s[p].id != v.id) by {
                    if s[p].id == v.id {
                        assert(show_id_present(s, v.id));
                    }
                }
            } else if i < p && j > p {
                assert(t[i] == s[i]);
                assert(t[j] == s[j - 1]);
            } else if j < p {
                assert(t[i] == s[i]);
                assert(t[j] == s[j]);
            } else {
                assert(t[i] == s[i - 1]);
                assert(t[j] == s[j - 1]);
            }
        }
        assert(show_id_present(t, v.id));
    }
}

proof fn lemma_show_insert_pos_props(s: Seq<ShowView>, id: int)
    ensures
        0 <= show_insert_pos(s, id) <= s.len(),
        forall|k: int| 0 <= k < show_insert_pos(s, id) ==> s[k].id < id,
        show_insert_pos(s, id) < s.len() ==> !(s[show_insert_pos(s, id)].id < id),
    decreases s.len(),
{
    if s.len() > 0 && s[0].id < id {
        lemma_show_insert_pos_props(s.drop_first(), id);
        assert forall|k: int| 0 <= k < show_insert_pos(s, id) implies s[k].id < id by {
            if k > 0 {
                assert(s.drop_first()[k - 1] == s[k]);
            }
        }
    }
}

proof fn lemma_episode_insert_pos_props(s: Seq<EpisodeView>, e: EpisodeView)
    ensures
        0 <= episode_insert_pos(s, e) <= s.len(),
        forall|k: int| 0 <= k < episode_insert_pos(s, e) ==> episode_order_le(s[k], e),
        episode_insert_pos(s, e) < s.len() ==> !episode_order_le(s[episode_insert_pos(s, e)], e),
    decreases s.len(),
{
    if s.len() > 0 && episode_order_le(s[0], e) {
        lemma_episode_insert_pos_props(s.drop_first(), e);
        assert forall|k: int| 0 <= k < episode_insert_pos(s, e) implies episode_order_le(
            s[k],
            e,
        ) by {
            if k > 0 {
                assert(s.drop_first()[k - 1] == s[k]);
            }
        }
    }
}

proof fn lemma_add_episode_one_wf(s: Seq<EpisodeView>, e: EpisodeView)
    requires
        episodes_sorted(s),
        episodes_unique(s),
    ensures
        episodes_sorted(add_episode_one(s, e)),
        episodes_unique(add_episode_one(s, e)),
        episode_key_present(add_episode_one(s, e), e),
        add_episode_one(s, e).len() >= s.len(),
{
    if episode_key_present(s, e) {
    } else {
        let p = episode_insert_pos(s, e);
        lemma_episode_insert_pos_props(s, e);
        let t = s.insert(p, e);
        assert(t[p] == e);
        assert forall|i: int, j: int| 0 <= i < j < t.len() implies episode_order_le(
            t[i],
            t[j],
        ) by {
            if j == p {
                assert(t[i] == s[i]);
            } else if i == p {
                assert(t[j] == s[j - 1]);
                assert(!episode_order_le(s[p], e));
                assert(episode_order_le(e, s[p]));
                if p < j - 1 {
                    assert(episode_order_le(s[p], s[j - 1]));
                }
            } else if i < p && j > p {
                assert(t[i] == s[i]);
                assert(t[j] == s[j - 1]);
            } else if j < p {
                assert(t[i] == s[i]);
                assert(t[j] == s[j]);
            } else {
                assert(t[i] == s[i - 1]);
                assert(t[j] == s[j - 1]);
            }
        }
        assert forall|i: int, j: int| 0 <= i < j < t.len() implies !same_episode_key(
            t[i],
            t[j],
        ) by {
            if j == p {
                assert(t[i] == s[i]);
                if same_episode_key(t[i], e) {
                    assert(episode_key_present(s, e));
                }
            } else if i == p {
                assert(t[j] == s[j - 1]);
                if same_episode_key(e, s[j - 1]) {
                    assert(same_episode_key(s[j - 1], e));
                    assert(episode_key_present(s, e));
                }
            } else if i < p && j > p {
                assert(t[i] == s[i]);
                assert(t[j] == s[j - 1]);
            } else if j < p {
                assert(t[i] == s[i]);
                assert(t[j] == s[j]);
            } else {
                assert(t[i] == s[i - 1]);
                assert(t[j] == s[j - 1]);
            }
        }
        assert(episode_key_present(t, e));
    }
}

/// Every element of a filtered sequence is an element of the original.
pub(crate) proof fn lemma_filter_elements<A>(s: Seq<A>, pred: spec_fn(A) -> bool)
    ensures
        forall|i: int|
            0 <= i < s.filter(pred).len() ==> exists|j: int|
                0 <= j < s.len() && s[j] == #[trigger] s.filter(pred)[i],
    decreases s.len(),
{
    reveal(Seq::filter);
    if s.len() > 0 {
        lemma_filter_elements(s.drop_last(), pred);
        let f = s.filter(pred);
        let df = s.drop_last().filter(pred);
        assert forall|i: int| 0 <= i < f.len() implies exists|j: int|
            0 <= j < s.len() && s[j] == #[trigger] f[i] by {
            if pred(s.last()) && i == f.len() - 1 {
                assert(s[s.len() - 1] == f[i]);
            } else {
                assert(f[i] == df[i]);
                let j = choose|j: int| 0 <= j < s.drop_last().len() && s.drop_last()[j] == df[i];
                assert(s[j] == f[i]);
            }
        }
    }
}

/// Filtering keeps relative order, so it keeps sortedness; it also keeps
/// key-uniqueness, since it keeps no element twice.
proof fn lemma_filter_episodes_wf(s: Seq<EpisodeView>, pred: spec_fn(EpisodeView) -> bool)
    requires
        episodes_sorted(s),
        episodes_unique(s),
    ensures
        episodes_sorted(s.filter(pred)),
        episodes_unique(s.filter(pred)),
    decreases s.len(),
{
    reveal(Seq::filter);
    if s.len() > 0 {
        let d = s.drop_last();
        assert(episodes_sorted(d) && episodes_unique(d)) by {
            assert(forall|i: int| 0 <= i < d.len() ==> d[i] == s[i]);
        }
        lemma_filter_episodes_wf(d, pred);
        if pred(s.last()) {
            let f = s.filter(pred);
            let df = d.filter(pred);
            lemma_filter_elements(d, pred);
            assert forall|i: int, j: int| 0 <= i < j < f.len() implies episode_order_le(
                f[i],
                f[j],
            ) && !same_episode_key(f[i], f[j]) by {
                if j < f.len() - 1 {
                    assert(f[i] == df[i] && f[j] == df[j]);
                } else {
                    assert(f[j] == s.last());
                    assert(f[i] == df[i]);
                    let k = choose|k: int| 0 <= k < d.len() && d[k] == df[i];
                    assert(s[k] == f[i]);
                    assert(episode_order_le(s[k], s[s.len() - 1]));
                    assert(!same_episode_key(s[k], s[s.len() - 1]));
                }
            }
        }
    }
}

/// As `lemma_filter_episodes_wf`, for the show list.
proof fn lemma_filter_shows_wf(s: Seq<ShowView>, pred: spec_fn(ShowView) -> bool)
    requires
        shows_sorted_unique(s),
    ensures
        shows_sorted_unique(s.filter(pred)),
    decreases s.len(),
{
    reveal(Seq::filter);
    if s.len() > 0 {
        let d = s.drop_last();
        assert(shows_sorted_unique(d)) by {
            assert(forall|i: int| 0 <= i < d.len() ==> d[i] == s[i]);
        }
        lemma_filter_shows_wf(d, pred);
        if pred(s.last()) {
            let f = s.filter(pred);
            let df = d.filter(pred);
            lemma_filter_elements(d, pred);
            assert forall|i: int, j: int| 0 <= i < j < f.len() implies f[i].id < f[j].id by {
                if j < f.len() - 1 {
                    assert(f[i] == df[i] && f[j] == df[j]);
                } else {
                    assert(f[j] == s.last());
                    assert(f[i] == df[i]);
                    let k = choose|k: int| 0 <= k < d.len() && d[k] == df[i];
                    assert(s[k] == f[i]);
                    assert(s[k].id < s[s.len() - 1].id);
                }
            }
        }
    }
}

/// Peeling a batch from the rear: adding `new.push(e)` is adding `new`, then
/// adding `e` alone.
proof fn lemma_add_episodes_spec_snoc(s: Seq<EpisodeView>, new: Seq<EpisodeView>, e: EpisodeView)
    ensures
        add_episodes_spec(s, new.push(e)) == add_episode_one(add_episodes_spec(s, new), e),
    decreases new.len(),
{
    if new.len() == 0 {
        assert(new.push(e)[0] == e);
        assert(new.push(e).drop_first() =~= Seq::<EpisodeView>::empty());
        assert(add_episodes_spec(s, new.push(e)) == add_episodes_spec(
            add_episode_one(s, e),
            Seq::<EpisodeView>::empty(),
        ));
        assert(add_episodes_spec(add_episode_one(s, e), Seq::<EpisodeView>::empty())
            == add_episode_one(s, e));
        assert(add_episodes_spec(s, new) == s);
    } else {
        assert(new.push(e)[0] == new[0]);
        assert(new.push(e).drop_first() =~= new.drop_first().push(e));
        assert(add_episodes_spec(s, new.push(e)) == add_episodes_spec(
            add_episode_one(s, new[0]),
            new.drop_first().push(e),
        ));
        lemma_add_episodes_spec_snoc(add_episode_one(s, new[0]), new.drop_first(), e);
        assert(add_episodes_spec(s, new) == add_episodes_spec(
            add_episode_one(s, new[0]),
            new.drop_first(),
        ));
    }
}

/// Index of the show with this id, if one is stored.
fn find_show_index(shows: &Vec<Show>, id: usize) -> (r: Option<usize>)
    ensures
        match r {
            Some(i) => i < shows@.len() && show_views(shows@)[i as int].id == id as int
                && first_show_index(show_views(shows@), id as int) == Some(i as int),
            None => !show_id_present(show_views(shows@), id as int)
                && first_show_index(show_views(shows@), id as int).is_none(),
        },
{
    let mut i: usize = 0;
    let n = shows.len();
    while i < n
        invariant
            n == shows@.len(),
            i <= n,
            forall|k: int| 0 <= k < i ==> show_views(shows@)[k].id != id as int,
        decreases n - i,
    {
        if shows[i].id == id {
            proof {
                lemma_first_show_index_stops(show_views(shows@), id as int, i as int);
            }
            return Some(i);
        }
        i += 1;
    }
    proof {
        lemma_first_show_index_none(show_views(shows@), id as int);
    }
    None
}

/// Whether an episode with this identity key is stored.
fn find_episode_key(episodes: &Vec<Episode>, episode: &Episode) -> (r: Option<usize>)
    ensures
        match r {
            Some(i) => i < episodes@.len() && same_episode_key(
                episode_views(episodes@)[i as int],
                episode@,
            ),
            None => !episode_key_present(episode_views(episodes@), episode@),
        },
{
    let mut i: usize = 0;
    let n = episodes.len();
    while i < n
        invariant
            n == episodes@.len(),
            i <= n,
            forall|k: int| 0 <= k < i ==> !same_episode_key(episode_views(episodes@)[k], episode@),
        decreases n - i,
    {
        if episodes[i].episode_id == episode.episode_id && episodes[i].show_id == episode.show_id {
            return Some(i);
        }
        i += 1;
    }
    None
}

/// First position whose entry comes strictly after the given episode.
fn episode_lower_pos(episodes: &Vec<Episode>, episode: &Episode) -> (p: usize)
    ensures
        p <= episodes@.len(),
        forall|k: int| 0 <= k < p ==> episode_order_le(episode_views(episodes@)[k], episode@),
        p < episodes@.len() ==> !episode_order_le(episode_views(episodes@)[p as int], episode@),
{
    let mut p: usize = 0;
    let n = episodes.len();
    while p < n
        invariant
            n == episodes@.len(),
            p <= n,
            forall|k: int| 0 <= k < p ==> episode_order_le(episode_views(episodes@)[k], episode@),
        decreases n - p,
    {
        if !episode_le(&episodes[p], episode) {
            return p;
        }
        p += 1;
    }
    p
}

/// First position whose entry's id is not below the given id.
fn show_lower_pos(shows: &Vec<Show>, id: usize) -> (p: usize)
    ensures
        p <= shows@.len(),
        forall|k: int| 0 <= k < p ==> show_views(shows@)[k].id < id as int,
        p < shows@.len() ==> !(show_views(shows@)[p as int].id < id as int),
{
    let mut p: usize = 0;
    let n = shows.len();
    while p < n
        invariant
            n == shows@.len(),
            p <= n,
            forall|k: int| 0 <= k < p ==> show_views(shows@)[k].id < id as int,
        decreases n - p,
    {
        if shows[p].id >= id {
            return p;
        }
        p += 1;
    }
    p
}

impl UserData {
    /// The store's invariant: both collections sorted, identity keys unique.
    pub open spec fn wf(self) -> bool {
        &&& shows_sorted_unique(self@.subscribed_shows)
        &&& episodes_sorted(self@.unwatched_episodes)
        &&& episodes_unique(self@.unwatched_episodes)
    }

    /// An empty store at the current document version.
    pub fn new() -> (r: UserData)
        ensures
            r.wf(),
            r@.version == CURRENT_VERSION,
            r@.subscribed_shows == Seq::<ShowView>::empty(),
            r@.unwatched_episodes == Seq::<EpisodeView>::empty(),
    {
        let r = UserData {
            version: CURRENT_VERSION,
            subscribed_shows: Vec::new(),
            unwatched_episodes: Vec::new(),
        };
        proof {
            assert(r@.subscribed_shows =~= Seq::<ShowView>::empty());
            assert(r@.unwatched_episodes =~= Seq::<EpisodeView>::empty());
        }
        r
    }

    /// Rebuild a store from decoded parts. The decoder validates the
    /// invariant before calling this.
    pub fn from_parts(version: u32, shows: Vec<Show>, episodes: Vec<Episode>) -> (r: UserData)
        requires
            shows_sorted_unique(show_views(shows@)),
            episodes_sorted(episode_views(episodes@)),
            episodes_unique(episode_views(episodes@)),
        ensures
            r.wf(),
            r@.version == version as int,
            r@.subscribed_shows == show_views(shows@),
            r@.unwatched_episodes == episode_views(episodes@),
    {
        UserData { version, subscribed_shows: shows, unwatched_episodes: episodes }
    }

    /// The version of the document this store was loaded from (or created at).
    pub fn version(&self) -> (r: u32)
        ensures
            r as int == self@.version,
    {
        self.version
    }

    /// The subscribed shows, sorted by id.
    pub fn subscribed_shows(&self) -> (r: &Vec<Show>)
        ensures
            show_views(r@) == self@.subscribed_shows,
    {
        &self.subscribed_shows
    }

    /// The unwatched episodes, sorted by (show id, season, number).
    pub fn unwatched_episodes(&self) -> (r: &Vec<Episode>)
        ensures
            episode_views(r@) == self@.unwatched_episodes,
    {
        &self.unwatched_episodes
    }

    /// Subscribe to a show. No change when a show with the same id is already
    /// subscribed; otherwise the show is inserted at its sorted position.
    pub fn add_show(&mut self, show: Show)
        requires
            old(self).wf(),
        ensures
            final(self).wf(),
            final(self)@.version == old(self)@.version,
            final(self)@.unwatched_episodes == old(self)@.unwatched_episodes,
            final(self)@.subscribed_shows == add_show_spec(old(self)@.subscribed_shows, show@),
    {
        let ghost pre = self@.subscribed_shows;
        if let Some(_) = find_show_index(&self.subscribed_shows, show.id) {
            return ;
        }
        let p = show_lower_pos(&self.subscribed_shows, show.id);
        proof {
            lemma_show_insert_pos_stops(pre, p as int, show@.id);
            lemma_add_show_spec_wf(pre, show@);
        }
        self.subscribed_shows.insert(p, show);
        proof {
            assert(show_views(self.subscribed_shows@) =~= pre.insert(p as int, show@));
        }
    }

    /// Unsubscribe: drop every show whose id equals the given show's id.
    /// Idempotent; unwatched episodes are untouched (`remove_episodes` drops
    /// those).
    #[verifier::loop_isolation(false)]
    pub fn remove_show(&mut self, show: &Show)
        requires
            old(self).wf(),
        ensures
            final(self).wf(),
            final(self)@.version == old(self)@.version,
            final(self)@.unwatched_episodes == old(self)@.unwatched_episodes,
            final(self)@.subscribed_shows == old(self)@.subscribed_shows.filter(
                |v: ShowView| v.id != show@.id,
            ),
    {
        let ghost pre = self@.subscribed_shows;
        let ghost pred = |v: ShowView| v.id != show@.id;
        let mut kept: Vec<Show> = Vec::new();
        let mut i: usize = 0;
        let n = self.subscribed_shows.len();
        proof {
            assert(pre.subrange(0, 0).filter(pred) =~= Seq::<ShowView>::empty());
            assert(show_views(kept@) =~= Seq::<ShowView>::empty());
        }
        while i < n
            invariant
                n == self.subscribed_shows@.len(),
                i <= n,
                pre == show_views(self.subscribed_shows@),
                show_views(kept@) == pre.subrange(0, i as int).filter(pred),
            decreases n - i,
        {
            let ghost prefix = pre.subrange(0, i as int);
            let keep = self.subscribed_shows[i].id != show.id;
            if keep {
                let s = shallow_copy_show(&self.subscribed_shows[i]);
                kept.push(s);
            }
            proof {
                reveal(Seq::filter);
                let q = prefix.push(pre[i as int]);
                assert(pre.subrange(0, i as int + 1) =~= q);
                assert(q.drop_last() =~= prefix);
                assert(q.drop_last() == prefix);
                assert(q.last() == pre[i as int]);
                assert(self.subscribed_shows@[i as int]@ == pre[i as int]);
                assert(pred(pre[i as int]) == keep);
                if keep {
                    assert(q.filter(pred) == prefix.filter(pred).push(pre[i as int]));
                    assert(show_views(kept@) =~= prefix.filter(pred).push(pre[i as int]));
                } else {
                    assert(q.filter(pred) == prefix.filter(pred));
                }
            }
            i += 1;
        }
        proof {
            assert(pre.subrange(0, n as int) =~= pre);
            lemma_filter_shows_wf(pre, pred);
        }
        self.subscribed_shows = kept;
    }

    /// Discard every unwatched episode belonging to the given show.
    /// Idempotent.
    #[verifier::loop_isolation(false)]
    pub fn remove_episodes(&mut self, show: &Show)
        requires
            old(self).wf(),
        ensures
            final(self).wf(),
            final(self)@.version == old(self)@.version,
            final(self)@.subscribed_shows == old(self)@.subscribed_shows,
            final(self)@.unwatched_episodes == old(self)@.unwatched_episodes.filter(
                |e: EpisodeView| e.show_id != show@.id,
            ),
    {
        let ghost pre = self@.unwatched_episodes;
        let ghost pred = |e: EpisodeView| e.show_id != show@.id;
        let mut kept: Vec<Episode> = Vec::new();
        let mut i: usize = 0;
        let n = self.unwatched_episodes.len();
        proof {
            assert(pre.subrange(0, 0).filter(pred) =~= Seq::<EpisodeView>::empty());
            assert(episode_views(kept@) =~= Seq::<EpisodeView>::empty());
        }
        while i < n
            invariant
                n == self.unwatched_episodes@.len(),
                i <= n,
                pre == episode_views(self.unwatched_episodes@),
                episode_views(kept@) == pre.subrange(0, i as int).filter(pred),
            decreases n - i,
        {
            let ghost prefix = pre.subrange(0, i as int);
            let keep = self.unwatched_episodes[i].show_id != show.id;
            if keep {
                let e = shallow_copy_episode(&self.unwatched_episodes[i]);
                kept.push(e);
            }
            proof {
                reveal(Seq::filter);
                let q = prefix.push(pre[i as int]);
                assert(pre.subrange(0, i as int + 1) =~= q);
                assert(q.drop_last() =~= prefix);
                assert(q.drop_last() == prefix);
                assert(q.last() == pre[i as int]);
                assert(self.unwatched_episodes@[i as int]@ == pre[i as int]);
                assert(pred(pre[i as int]) == keep);
                if keep {
                    assert(q.filter(pred) == prefix.filter(pred).push(pre[i as int]));
                    assert(episode_views(kept@) =~= prefix.filter(pred).push(pre[i as int]));
                } else {
                    assert(q.filter(pred) == prefix.filter(pred));
                }
            }
            i += 1;
        }
        proof {
            assert(pre.subrange(0, n as int) =~= pre);
            lemma_filter_episodes_wf(pre, pred);
        }
        self.unwatched_episodes = kept;
    }

    /// Ingest a batch of episodes: each is inserted at its sorted position
    /// unless an episode with the same identity key is already stored.
    #[verifier::loop_isolation(false)]
    pub fn add_episodes(&mut self, episodes: Vec<Episode>)
        requires
            old(self).wf(),
        ensures
            final(self).wf(),
            final(self)@.version == old(self)@.version,
            final(self)@.subscribed_shows == old(self)@.subscribed_shows,
            final(self)@.unwatched_episodes == add_episodes_spec(
                old(self)@.unwatched_episodes,
                episode_views(episodes@),
            ),
    {
        let ghost pre = self@.unwatched_episodes;
        let ghost incoming = episode_views(episodes@);
        let mut rest = episodes;
        let ghost mut count: int = 0;
        proof {
            assert(incoming.subrange(0, 0) =~= Seq::<EpisodeView>::empty());
            assert(episode_views(rest@) =~= incoming.subrange(0, incoming.len() as int));
        }
        while rest.len() > 0
            invariant
                0 <= count,
                count + rest@.len() == incoming.len(),
                episode_views(rest@) == incoming.subrange(count, incoming.len() as int),
                self.wf(),
                self@.version == old(self)@.version,
                self@.subscribed_shows == old(self)@.subscribed_shows,
                self@.unwatched_episodes == add_episodes_spec(
                    pre,
                    incoming.subrange(0, count),
                ),
            decreases rest@.len(),
        {
            let ghost rest_pre = rest@;
            let e = rest.remove(0);
            proof {
                assert(episode_views(rest_pre)[0] == e@);
                assert(incoming.subrange(count, incoming.len() as int)[0]
                    == incoming[count]);
                assert(e@ == incoming[count]);
            }
            self.add_episode_sorted(e);
            proof {
                assert(incoming.subrange(0, count + 1) =~= incoming.subrange(
                    0,
                    count,
                ).push(incoming[count]));
                lemma_add_episodes_spec_snoc(
                    pre,
                    incoming.subrange(0, count),
                    incoming[count],
                );
                assert forall|k: int| 0 <= k < rest@.len() implies episode_views(rest@)[k]
                    == incoming[count + 1 + k] by {
                    assert(rest@[k] == rest_pre[k + 1]);
                    assert(episode_views(rest_pre)[k + 1] == incoming.subrange(
                        count,
                        incoming.len() as int,
                    )[k + 1]);
                }
                assert(episode_views(rest@) =~= incoming.subrange(
                    count + 1,
                    incoming.len() as int,
                ));
            }
            proof {
                count = count + 1;
            }
        }
        proof {
            assert(incoming.subrange(0, incoming.len() as int) =~= incoming);
        }
    }

    /// Insert one episode at its sorted position unless its identity key is
    /// already stored.
    fn add_episode_sorted(&mut self, episode: Episode)
        requires
            old(self).wf(),
        ensures
            final(self).wf(),
            final(self)@.version == old(self)@.version,
            final(self)@.subscribed_shows == old(self)@.subscribed_shows,
            final(self)@.unwatched_episodes == add_episode_one(old(self)@.unwatched_episodes, episode@),
    {
        let ghost pre = self@.unwatched_episodes;
        if let Some(_) = find_episode_key(&self.unwatched_episodes, &episode) {
            return ;
        }
        let p = episode_lower_pos(&self.unwatched_episodes, &episode);
        proof {
            lemma_episode_insert_pos_stops(pre, p as int, episode@);
            lemma_add_episode_one_wf(pre, episode@);
        }
        self.unwatched_episodes.insert(p, episode);
        proof {
            assert(episode_views(self.unwatched_episodes@) =~= pre.insert(p as int, episode@));
        }
    }
}

/// Comparison backing the sorted episode order.
fn episode_le(a: &Episode, b: &Episode) -> (r: bool)
    ensures
        r == episode_order_le(a@, b@),
{
    if a.show_id != b.show_id {
        a.show_id < b.show_id
    } else if a.season != b.season {
        a.season < b.season
    } else {
        a.number <= b.number
    }
}

/// Copy a weekday list element by element; weekdays are plain copies.
fn copy_days(days: &Vec<Day>) -> (r: Vec<Day>)
    ensures
        r@ == days@,
{
    let mut r: Vec<Day> = Vec::new();
    let mut i: usize = 0;
    let n = days.len();
    while i < n
        invariant
            n == days@.len(),
            i <= n,
            r@ == days@.subrange(0, i as int),
        decreases n - i,
    {
        r.push(days[i]);
        proof {
            assert(days@.subrange(0, i as int + 1) =~= days@.subrange(0, i as int).push(
                days@[i as int],
            ));
        }
        i += 1;
    }
    proof {
        assert(days@.subrange(0, n as int) =~= days@);
    }
    r
}

/// Rebuild a show value field by field; cloned strings are equal strings, so
/// the result's view equals the original's.
pub(crate) fn shallow_copy_show(s: &Show) -> (r: Show)
    ensures
        r@ == s@,
{
    let language = match &s.language {
        Some(l) => Some(l.clone()),
        None => None,
    };
    let network = match &s.network {
        Some(n) => Some(Network { id: n.id, name: n.name.clone() }),
        None => None,
    };
    let web_channel = match &s.web_channel {
        Some(n) => Some(Network { id: n.id, name: n.name.clone() }),
        None => None,
    };
    Show {
        id: s.id,
        name: s.name.clone(),
        language,
        network,
        web_channel,
        status: s.status,
        runtime: s.runtime,
        schedule: Schedule { days: copy_days(&s.schedule.days) },
        last_updated: s.last_updated,
        last_watched_episode: s.last_watched_episode,
    }
}

/// Rebuild an episode value field by field; the view is unchanged.
pub(crate) fn shallow_copy_episode(e: &Episode) -> (r: Episode)
    ensures
        r@ == e@,
{
    Episode {
        episode_id: e.episode_id,
        show_id: e.show_id,
        name: e.name.clone(),
        season: e.season,
        number: e.number,
        airstamp: e.airstamp,
        runtime: e.runtime,
        watched: e.watched,
    }
}


// ---------------------------------------------------------------------------
// Marking episodes watched
// ---------------------------------------------------------------------------

/// The same episode with its watched flag set.
pub open spec fn marked_episode(e: EpisodeView) -> EpisodeView {
    EpisodeView { watched: true, ..e }
}

/// An episode of this show still waiting to be watched.
pub open spec fn next_candidate(e: EpisodeView, sid: int) -> bool {
    e.show_id == sid && !e.watched
}

/// An unwatched episode of this show in the given season.
pub open spec fn season_candidate(e: EpisodeView, sid: int, season: int) -> bool {
    e.show_id == sid && e.season == season && !e.watched
}

/// The unwatched episode of this show at exactly (season, number).
pub open spec fn exact_candidate(e: EpisodeView, sid: int, season: int, number: int) -> bool {
    e.show_id == sid && e.season == season && e.number == number && !e.watched
}

/// Index of the first unwatched episode of this show, in stored order.
pub open spec fn first_unwatched_index(s: Seq<EpisodeView>, sid: int) -> Option<int>
    decreases s.len(),
{
    if s.len() == 0 {
        None
    } else if next_candidate(s[0], sid) {
        Some(0int)
    } else {
        match first_unwatched_index(s.drop_first(), sid) {
            Some(i) => Some(i + 1),
            None => None,
        }
    }
}

/// The (season, number) of the last season candidate in stored order, which
/// by sortedness is the highest number the season mark touches.
pub open spec fn last_season_pair(s: Seq<EpisodeView>, sid: int, season: int) -> Option<(int, int)>
    decreases s.len(),
{
    if s.len() == 0 {
        None
    } else if season_candidate(s.last(), sid, season) {
        Some((season, s.last().number))
    } else {
        last_season_pair(s.drop_last(), sid, season)
    }
}

/// Marking the next unwatched episode of a show: flip the first candidate's
/// flag; report its (season, number), or nothing when all are watched.
pub open spec fn mark_next_spec(s: Seq<EpisodeView>, sid: int) -> (Seq<EpisodeView>, Option<
    (int, int),
>) {
    match first_unwatched_index(s, sid) {
        Some(i) => (s.update(i, marked_episode(s[i])), Some(episode_pair(s[i]))),
        None => (s, None),
    }
}

/// Marking a whole season: flip every candidate's flag; report the last
/// (season, number) touched, or nothing when none matched.
pub open spec fn mark_season_spec(s: Seq<EpisodeView>, sid: int, season: int) -> (Seq<
    EpisodeView,
>, Option<(int, int)>) {
    (
        Seq::new(
            s.len(),
            |i: int|
                if season_candidate(s[i], sid, season) {
                    marked_episode(s[i])
                } else {
                    s[i]
                },
        ),
        last_season_pair(s, sid, season),
    )
}

/// Marking one exact episode: flip the candidate's flag where present;
/// report the requested pair exactly when something was flipped.
pub open spec fn mark_exact_spec(s: Seq<EpisodeView>, sid: int, season: int, number: int) -> (Seq<
    EpisodeView,
>, Option<(int, int)>) {
    (
        Seq::new(
            s.len(),
            |i: int|
                if exact_candidate(s[i], sid, season, number) {
                    marked_episode(s[i])
                } else {
                    s[i]
                },
        ),
        if exists|i: int| 0 <= i < s.len() && exact_candidate(s[i], sid, season, number) {
            Some((season, number))
        } else {
            None
        },
    )
}

/// What the marking phase of `mark_as_watched` does, by argument shape.
/// A number without a season is a caller error and marks nothing.
pub open spec fn mark_phase_result(
    s: Seq<EpisodeView>,
    sid: int,
    season: Option<int>,
    episode: Option<int>,
) -> (Seq<EpisodeView>, Option<(int, int)>) {
    match (season, episode) {
        (Some(se), None) => mark_season_spec(s, sid, se),
        (Some(se), Some(ep)) => mark_exact_spec(s, sid, se, ep),
        (None, None) => mark_next_spec(s, sid),
        (None, Some(_)) => (s, None),
    }
}

/// Index of the show with this id, where one is subscribed.
pub open spec fn first_show_index(s: Seq<ShowView>, sid: int) -> Option<int>
    decreases s.len(),
{
    if s.len() == 0 {
        None
    } else if s[0].id == sid {
        Some(0int)
    } else {
        match first_show_index(s.drop_first(), sid) {
            Some(i) => Some(i + 1),
            None => None,
        }
    }
}

/// The watch pointer recorded for this show; (0, 0) when it is not
/// subscribed.
pub open spec fn show_pointer(s: Seq<ShowView>, sid: int) -> (int, int) {
    match first_show_index(s, sid) {
        Some(i) => s[i].last_watched_episode,
        None => (0int, 0int),
    }
}

/// The show list with this show's watch pointer replaced; unchanged when the
/// show is not subscribed.
pub open spec fn set_show_pointer(s: Seq<ShowView>, sid: int, ptr: (int, int)) -> Seq<ShowView> {
    match first_show_index(s, sid) {
        Some(i) => s.update(i, ShowView { last_watched_episode: ptr, ..s[i] }),
        None => s,
    }
}

/// A gap: some still-unwatched episode of the show lies strictly between the
/// watch pointer and the episode just marked.
pub open spec fn gap_exists(
    s: Seq<EpisodeView>,
    sid: int,
    ptr: (int, int),
    last: (int, int),
) -> bool {
    exists|i: int|
        0 <= i < s.len() && next_candidate(s[i], sid) && pair_lt(ptr, episode_pair(s[i]))
            && pair_lt(episode_pair(s[i]), last)
}

/// Index of the first stored episode of this show lying strictly beyond the
/// pointer.
pub open spec fn first_beyond(s: Seq<EpisodeView>, sid: int, ptr: (int, int)) -> Option<int>
    decreases s.len(),
{
    if s.len() == 0 {
        None
    } else if s[0].show_id == sid && pair_lt(ptr, episode_pair(s[0])) {
        Some(0int)
    } else {
        match first_beyond(s.drop_first(), sid, ptr) {
            Some(i) => Some(i + 1),
            None => None,
        }
    }
}

/// The cleanup walk after a gapless mark: while the first episode of the
/// show beyond the pointer is watched, drop it and advance the pointer to
/// it; stop at the first unwatched one.
pub open spec fn collapse(s: Seq<EpisodeView>, sid: int, ptr: (int, int)) -> (Seq<EpisodeView>, (
    int,
    int,
))
    decreases s.len(),
    via collapse_decreases
{
    match first_beyond(s, sid, ptr) {
        None => (s, ptr),
        Some(i) => {
            if s[i].watched {
                collapse(s.remove(i), sid, episode_pair(s[i]))
            } else {
                (s, ptr)
            }
        },
    }
}

/// The first episode beyond the pointer, when there is one, lies inside the
/// list.
proof fn lemma_first_beyond_range(s: Seq<EpisodeView>, sid: int, ptr: (int, int))
    ensures
        match first_beyond(s, sid, ptr) {
            Some(i) => 0 <= i < s.len(),
            None => true,
        },
    decreases s.len(),
{
    if s.len() > 0 && !(s[0].show_id == sid && pair_lt(ptr, episode_pair(s[0]))) {
        lemma_first_beyond_range(s.drop_first(), sid, ptr);
    }
}

#[via_fn]
proof fn collapse_decreases(s: Seq<EpisodeView>, sid: int, ptr: (int, int)) {
    lemma_first_beyond_range(s, sid, ptr);
}

/// The full transition of `mark_as_watched`: the marking phase, then — when
/// something was marked and no gap separates it from the pointer — the
/// cleanup walk and the pointer write-back.
pub open spec fn mark_transition(
    pre: UserDataView,
    post: UserDataView,
    sid: int,
    season: Option<int>,
    episode: Option<int>,
    r: Option<(int, int)>,
) -> bool {
    let phase = mark_phase_result(pre.unwatched_episodes, sid, season, episode);
    &&& post.version == pre.version
    &&& r == phase.1
    &&& match phase.1 {
        None => post.subscribed_shows == pre.subscribed_shows && post.unwatched_episodes
            == pre.unwatched_episodes,
        Some(lm) => {
            let ptr = show_pointer(pre.subscribed_shows, sid);
            if gap_exists(phase.0, sid, ptr, lm) {
                post.unwatched_episodes == phase.0 && post.subscribed_shows
                    == pre.subscribed_shows
            } else {
                let c = collapse(phase.0, sid, ptr);
                post.unwatched_episodes == c.0 && post.subscribed_shows == set_show_pointer(
                    pre.subscribed_shows,
                    sid,
                    c.1,
                )
            }
        },
    }
}

/// Option<(usize, usize)> as a pair of mathematical integers.
pub open spec fn opt_pair_int(r: Option<(usize, usize)>) -> Option<(int, int)> {
    match r {
        Some(p) => Some((p.0 as int, p.1 as int)),
        None => None,
    }
}

/// Option<usize> as a mathematical integer.
pub open spec fn opt_int(o: Option<usize>) -> Option<int> {
    match o {
        Some(x) => Some(x as int),
        None => None,
    }
}


/// A scan that saw no candidate before `i` and a candidate at `i` has found
/// the first one.
proof fn lemma_first_unwatched_stops(s: Seq<EpisodeView>, sid: int, i: int)
    requires
        0 <= i < s.len(),
        forall|k: int| 0 <= k < i ==> !next_candidate(s[k], sid),
        next_candidate(s[i], sid),
    ensures
        first_unwatched_index(s, sid) == Some(i),
    decreases s.len(),
{
    if i > 0 {
        lemma_first_unwatched_stops(s.drop_first(), sid, i - 1);
    }
}

/// A scan that saw no candidate anywhere finds none.
proof fn lemma_first_unwatched_none(s: Seq<EpisodeView>, sid: int)
    requires
        forall|k: int| 0 <= k < s.len() ==> !next_candidate(s[k], sid),
    ensures
        first_unwatched_index(s, sid).is_none(),
    decreases s.len(),
{
    if s.len() > 0 {
        lemma_first_unwatched_none(s.drop_first(), sid);
    }
}

/// As `lemma_first_unwatched_stops`, for the show list.
pub(crate) proof fn lemma_first_show_index_stops(s: Seq<ShowView>, sid: int, i: int)
    requires
        0 <= i < s.len(),
        forall|k: int| 0 <= k < i ==> s[k].id != sid,
        s[i].id == sid,
    ensures
        first_show_index(s, sid) == Some(i),
    decreases s.len(),
{
    if i > 0 {
        lemma_first_show_index_stops(s.drop_first(), sid, i - 1);
    }
}

pub(crate) proof fn lemma_first_show_index_none(s: Seq<ShowView>, sid: int)
    requires
        forall|k: int| 0 <= k < s.len() ==> s[k].id != sid,
    ensures
        first_show_index(s, sid).is_none(),
    decreases s.len(),
{
    if s.len() > 0 {
        lemma_first_show_index_none(s.drop_first(), sid);
    }
}

/// Setting a watched flag moves no episode and changes no identity key, so
/// the invariant survives.
proof fn lemma_mark_update_wf(s: Seq<EpisodeView>, i: int)
    requires
        episodes_sorted(s),
        episodes_unique(s),
        0 <= i < s.len(),
    ensures
        episodes_sorted(s.update(i, marked_episode(s[i]))),
        episodes_unique(s.update(i, marked_episode(s[i]))),
{
    let t = s.update(i, marked_episode(s[i]));
    assert forall|a: int, b: int| 0 <= a < b < t.len() implies episode_order_le(t[a], t[b])
        && !same_episode_key(t[a], t[b]) by {
        assert(episode_order_le(s[a], s[b]));
        assert(!same_episode_key(s[a], s[b]));
    }
}

impl UserData {
    /// Flip the watched flag of the episode at this position.
    fn set_watched_at(&mut self, i: usize)
        requires
            i < old(self)@.unwatched_episodes.len(),
        ensures
            final(self).unwatched_episodes@.len() == old(self).unwatched_episodes@.len(),
            final(self)@.version == old(self)@.version,
            final(self)@.subscribed_shows == old(self)@.subscribed_shows,
            final(self)@.unwatched_episodes == old(self)@.unwatched_episodes.update(
                i as int,
                marked_episode(old(self)@.unwatched_episodes[i as int]),
            ),
    {
        let ghost s0 = self@.unwatched_episodes;
        let mut e = self.unwatched_episodes.remove(i);
        e.watched = true;
        self.unwatched_episodes.insert(i, e);
        proof {
            assert forall|k: int|
                0 <= k < self.unwatched_episodes@.len() implies episode_views(
                self.unwatched_episodes@,
            )[k] == s0.update(i as int, marked_episode(s0[i as int]))[k] by {
                if k < i {
                } else if k == i {
                    assert(e@ == marked_episode(s0[i as int]));
                }
            }
            assert(episode_views(self.unwatched_episodes@) =~= s0.update(
                i as int,
                marked_episode(s0[i as int]),
            ));
        }
    }

    /// Mark the earliest not-yet-watched episode of the show; report its
    /// (season, number), or nothing when every stored episode of the show is
    /// already marked.
    #[verifier::loop_isolation(false)]
    fn mark_next_episode_as_watched(&mut self, show_id: usize) -> (r: Option<(usize, usize)>)
        requires
            old(self).wf(),
        ensures
            final(self).wf(),
            final(self)@.version == old(self)@.version,
            final(self)@.subscribed_shows == old(self)@.subscribed_shows,
            final(self)@.unwatched_episodes == mark_next_spec(
                old(self)@.unwatched_episodes,
                show_id as int,
            ).0,
            opt_pair_int(r) == mark_next_spec(old(self)@.unwatched_episodes, show_id as int).1,
    {
        let ghost s0 = self@.unwatched_episodes;
        let n = self.unwatched_episodes.len();
        let mut i: usize = 0;
        while i < n
            invariant
                i <= n,
                self@ == old(self)@,
                s0 == self@.unwatched_episodes,
                n == self.unwatched_episodes@.len(),
                forall|k: int| 0 <= k < i ==> !next_candidate(s0[k], show_id as int),
            decreases n - i,
        {
            if self.unwatched_episodes[i].show_id == show_id
                && !self.unwatched_episodes[i].watched {
                proof {
                    assert(next_candidate(s0[i as int], show_id as int));
                    lemma_first_unwatched_stops(s0, show_id as int, i as int);
                    lemma_mark_update_wf(s0, i as int);
                }
                let season = self.unwatched_episodes[i].season;
                let number = self.unwatched_episodes[i].number;
                self.set_watched_at(i);
                return Some((season, number));
            }
            i += 1;
        }
        proof {
            lemma_first_unwatched_none(s0, show_id as int);
        }
        None
    }
}


/// Flipping watched flags — wherever it happens — moves no episode and
/// changes no identity key, so the invariant survives.
proof fn lemma_markall_wf(s: Seq<EpisodeView>, t: Seq<EpisodeView>)
    requires
        episodes_sorted(s),
        episodes_unique(s),
        t.len() == s.len(),
        forall|k: int| 0 <= k < s.len() ==> t[k] == s[k] || t[k] == marked_episode(s[k]),
    ensures
        episodes_sorted(t),
        episodes_unique(t),
{
    assert forall|a: int, b: int| 0 <= a < b < t.len() implies episode_order_le(t[a], t[b])
        && !same_episode_key(t[a], t[b]) by {
        assert(episode_order_le(s[a], s[b]));
        assert(!same_episode_key(s[a], s[b]));
    }
}

impl UserData {
    /// Mark every not-yet-watched episode of one season of the show; report
    /// the highest (season, number) touched, or nothing when none matched.
    #[verifier::loop_isolation(false)]
    fn mark_season_as_watched(&mut self, show_id: usize, season: usize) -> (r: Option<
        (usize, usize),
    >)
        requires
            old(self).wf(),
        ensures
            final(self).wf(),
            final(self)@.version == old(self)@.version,
            final(self)@.subscribed_shows == old(self)@.subscribed_shows,
            final(self)@.unwatched_episodes == mark_season_spec(
                old(self)@.unwatched_episodes,
                show_id as int,
                season as int,
            ).0,
            opt_pair_int(r) == mark_season_spec(
                old(self)@.unwatched_episodes,
                show_id as int,
                season as int,
            ).1,
    {
        let ghost s0 = self@.unwatched_episodes;
        let ghost sid = show_id as int;
        let ghost se = season as int;
        let n = self.unwatched_episodes.len();
        let mut marked: Option<(usize, usize)> = None;
        let mut i: usize = 0;
        while i < n
            invariant
                i <= n,
                n == self.unwatched_episodes@.len(),
                self@.version == old(self)@.version,
                self@.subscribed_shows == old(self)@.subscribed_shows,
                self@.unwatched_episodes.len() == s0.len(),
                forall|k: int|
                    0 <= k < s0.len() ==> self@.unwatched_episodes[k] == (if k < i
                        && season_candidate(s0[k], sid, se) {
                        marked_episode(s0[k])
                    } else {
                        s0[k]
                    }),
                opt_pair_int(marked) == last_season_pair(s0.subrange(0, i as int), sid, se),
            decreases n - i,
        {
            let ghost prefix = s0.subrange(0, i as int + 1);
            let is_candidate = self.unwatched_episodes[i].show_id == show_id
                && self.unwatched_episodes[i].season == season
                && !self.unwatched_episodes[i].watched;
            proof {
                assert(self@.unwatched_episodes[i as int] == s0[i as int]);
                assert(is_candidate == season_candidate(s0[i as int], sid, se));
                assert(prefix.drop_last() =~= s0.subrange(0, i as int));
                assert(prefix.last() == s0[i as int]);
            }
            if is_candidate {
                let number = self.unwatched_episodes[i].number;
                self.set_watched_at(i);
                marked = Some((season, number));
            }
            i += 1;
        }
        proof {
            assert(s0.subrange(0, n as int) =~= s0);
            assert(self@.unwatched_episodes =~= mark_season_spec(s0, sid, se).0);
            lemma_markall_wf(s0, self@.unwatched_episodes);
        }
        marked
    }

    /// Mark exactly the episode (season, number) of the show, where it is
    /// stored and not yet watched; report that pair, else nothing.
    #[verifier::loop_isolation(false)]
    fn mark_episode_as_watched(&mut self, show_id: usize, season: usize, number: usize) -> (r:
        Option<(usize, usize)>)
        requires
            old(self).wf(),
        ensures
            final(self).wf(),
            final(self)@.version == old(self)@.version,
            final(self)@.subscribed_shows == old(self)@.subscribed_shows,
            final(self)@.unwatched_episodes == mark_exact_spec(
                old(self)@.unwatched_episodes,
                show_id as int,
                season as int,
                number as int,
            ).0,
            opt_pair_int(r) == mark_exact_spec(
                old(self)@.unwatched_episodes,
                show_id as int,
                season as int,
                number as int,
            ).1,
    {
        let ghost s0 = self@.unwatched_episodes;
        let ghost sid = show_id as int;
        let ghost se = season as int;
        let ghost nu = number as int;
        let n = self.unwatched_episodes.len();
        let mut found = false;
        let mut i: usize = 0;
        while i < n
            invariant
                i <= n,
                n == self.unwatched_episodes@.len(),
                self@.version == old(self)@.version,
                self@.subscribed_shows == old(self)@.subscribed_shows,
                self@.unwatched_episodes.len() == s0.len(),
                forall|k: int|
                    0 <= k < s0.len() ==> self@.unwatched_episodes[k] == (if k < i
                        && exact_candidate(s0[k], sid, se, nu) {
                        marked_episode(s0[k])
                    } else {
                        s0[k]
                    }),
                found == exists|k: int| 0 <= k < i && exact_candidate(s0[k], sid, se, nu),
            decreases n - i,
        {
            let is_candidate = self.unwatched_episodes[i].show_id == show_id
                && self.unwatched_episodes[i].season == season
                && self.unwatched_episodes[i].number == number
                && !self.unwatched_episodes[i].watched;
            proof {
                assert(self@.unwatched_episodes[i as int] == s0[i as int]);
                assert(is_candidate == exact_candidate(s0[i as int], sid, se, nu));
            }
            if is_candidate {
                self.set_watched_at(i);
                found = true;
                proof {
                    assert(exact_candidate(s0[i as int], sid, se, nu));
                }
            }
            i += 1;
        }
        proof {
            assert(self@.unwatched_episodes =~= mark_exact_spec(s0, sid, se, nu).0);
            lemma_markall_wf(s0, self@.unwatched_episodes);
            if found {
                assert(exists|k: int| 0 <= k < s0.len() && exact_candidate(s0[k], sid, se, nu));
            }
        }
        if found {
            Some((season, number))
        } else {
            None
        }
    }
}


/// What `first_beyond` finds is the first candidate: an episode of the show
/// strictly beyond the pointer, with none before it.
proof fn lemma_first_beyond_props(s: Seq<EpisodeView>, sid: int, ptr: (int, int))
    ensures
        match first_beyond(s, sid, ptr) {
            Some(i) => 0 <= i < s.len() && s[i].show_id == sid && pair_lt(
                ptr,
                episode_pair(s[i]),
            ) && forall|k: int|
                0 <= k < i ==> !(s[k].show_id == sid && pair_lt(ptr, episode_pair(s[k]))),
            None => forall|k: int|
                0 <= k < s.len() ==> !(s[k].show_id == sid && pair_lt(ptr, episode_pair(s[k]))),
        },
    decreases s.len(),
{
    if s.len() > 0 && !(s[0].show_id == sid && pair_lt(ptr, episode_pair(s[0]))) {
        lemma_first_beyond_props(s.drop_first(), sid, ptr);
        assert forall|k: int| 1 <= k < s.len() implies s.drop_first()[k - 1] == s[k] by {}
    }
}

/// The walk never moves the pointer backwards.
proof fn lemma_collapse_monotone(s: Seq<EpisodeView>, sid: int, ptr: (int, int))
    ensures
        pair_le(ptr, collapse(s, sid, ptr).1),
    decreases s.len(),
{
    lemma_first_beyond_props(s, sid, ptr);
    match first_beyond(s, sid, ptr) {
        None => {},
        Some(i) => {
            if s[i].watched {
                lemma_collapse_monotone(s.remove(i), sid, episode_pair(s[i]));
            }
        },
    }
}

/// Removing one entry keeps the list sorted and its keys unique.
proof fn lemma_remove_wf(s: Seq<EpisodeView>, i: int)
    requires
        episodes_sorted(s),
        episodes_unique(s),
        0 <= i < s.len(),
    ensures
        episodes_sorted(s.remove(i)),
        episodes_unique(s.remove(i)),
{
    let t = s.remove(i);
    assert forall|a: int, b: int| 0 <= a < b < t.len() implies episode_order_le(t[a], t[b])
        && !same_episode_key(t[a], t[b]) by {
        let a0: int = if a < i { a } else { a + 1 };
        let b0: int = if b < i { b } else { b + 1 };
        assert(t[a] == s[a0]);
        assert(t[b] == s[b0]);
    }
}

/// The walk only removes entries, so the invariant survives it.
proof fn lemma_collapse_wf(s: Seq<EpisodeView>, sid: int, ptr: (int, int))
    requires
        episodes_sorted(s),
        episodes_unique(s),
    ensures
        episodes_sorted(collapse(s, sid, ptr).0),
        episodes_unique(collapse(s, sid, ptr).0),
    decreases s.len(),
{
    lemma_first_beyond_props(s, sid, ptr);
    match first_beyond(s, sid, ptr) {
        None => {},
        Some(i) => {
            if s[i].watched {
                lemma_remove_wf(s, i);
                lemma_collapse_wf(s.remove(i), sid, episode_pair(s[i]));
            }
        },
    }
}

/// A head entry that is not a candidate — wrong show, or not beyond the
/// pointer — passes through the walk untouched, whatever the walk does to
/// the rest.
proof fn lemma_collapse_skip_head(s: Seq<EpisodeView>, sid: int, ptr: (int, int))
    requires
        s.len() > 0,
        !(s[0].show_id == sid && pair_lt(ptr, episode_pair(s[0]))),
    ensures
        collapse(s, sid, ptr).0 == seq![s[0]] + collapse(s.drop_first(), sid, ptr).0,
        collapse(s, sid, ptr).1 == collapse(s.drop_first(), sid, ptr).1,
    decreases s.len(),
{
    let d = s.drop_first();
    lemma_first_beyond_props(s, sid, ptr);
    lemma_first_beyond_props(d, sid, ptr);
    match first_beyond(d, sid, ptr) {
        None => {
            assert(first_beyond(s, sid, ptr).is_none());
            assert(s =~= seq![s[0]] + d);
        },
        Some(j) => {
            assert(first_beyond(s, sid, ptr) == Some(j + 1));
            assert(s[j + 1] == d[j]);
            if d[j].watched {
                let np = episode_pair(d[j]);
                assert(s.remove(j + 1) =~= seq![s[0]] + d.remove(j));
                assert(s.remove(j + 1).len() > 0 && s.remove(j + 1)[0] == s[0]);
                // the head stays a non-candidate: the pointer only advanced
                assert(!(s[0].show_id == sid && pair_lt(np, episode_pair(s[0]))));
                assert(s.remove(j + 1).drop_first() =~= d.remove(j));
                lemma_collapse_skip_head(s.remove(j + 1), sid, np);
                assert(collapse(s, sid, ptr) == collapse(s.remove(j + 1), sid, np));
                assert(collapse(d, sid, ptr) == collapse(d.remove(j), sid, np));
            } else {
                assert(collapse(s, sid, ptr) == (s, ptr));
                assert(collapse(d, sid, ptr) == (d, ptr));
                assert(s =~= seq![s[0]] + d);
            }
        },
    }
}

impl UserData {
    /// The cleanup walk of `mark_as_watched`: drop the show's watched
    /// episodes beyond the pointer, in order, advancing the pointer across
    /// each; stop at the first unwatched one. Episodes of other shows, and
    /// episodes at or before the pointer, stay.
    #[verifier::loop_isolation(false)]
    fn collapse_watched(&mut self, show_id: usize, ptr: (usize, usize)) -> (r: (usize, usize))
        requires
            old(self).wf(),
        ensures
            final(self).wf(),
            final(self)@.version == old(self)@.version,
            final(self)@.subscribed_shows == old(self)@.subscribed_shows,
            final(self)@.unwatched_episodes == collapse(
                old(self)@.unwatched_episodes,
                show_id as int,
                (ptr.0 as int, ptr.1 as int),
            ).0,
            (r.0 as int, r.1 as int) == collapse(
                old(self)@.unwatched_episodes,
                show_id as int,
                (ptr.0 as int, ptr.1 as int),
            ).1,
            pair_le((ptr.0 as int, ptr.1 as int), (r.0 as int, r.1 as int)),
    {
        let ghost s0 = self@.unwatched_episodes;
        let ghost sid = show_id as int;
        let ghost p0 = (ptr.0 as int, ptr.1 as int);
        let n = self.unwatched_episodes.len();
        let mut result: Vec<Episode> = Vec::new();
        let mut cur = ptr;
        let mut stop = false;
        let mut i: usize = 0;
        proof {
            assert(s0.subrange(0, n as int) =~= s0);
            assert(episode_views(result@) + collapse(s0, sid, p0).0 =~= collapse(s0, sid, p0).0);
        }
        while i < n
            invariant
                i <= n,
                self@ == old(self)@,
                pair_le(p0, (cur.0 as int, cur.1 as int)),
                !stop ==> collapse(s0, sid, p0).0 == episode_views(result@) + collapse(
                    s0.subrange(i as int, n as int),
                    sid,
                    (cur.0 as int, cur.1 as int),
                ).0 && collapse(s0, sid, p0).1 == collapse(
                    s0.subrange(i as int, n as int),
                    sid,
                    (cur.0 as int, cur.1 as int),
                ).1,
                stop ==> collapse(s0, sid, p0).0 == episode_views(result@) + s0.subrange(
                    i as int,
                    n as int,
                ) && collapse(s0, sid, p0).1 == (cur.0 as int, cur.1 as int),
            decreases n - i,
        {
            let ghost rem = s0.subrange(i as int, n as int);
            let ghost curp = (cur.0 as int, cur.1 as int);
            proof {
                assert(rem.len() > 0);
                assert(rem[0] == s0[i as int]);
                assert(rem.drop_first() =~= s0.subrange(i as int + 1, n as int));
            }
            let of_show = self.unwatched_episodes[i].show_id == show_id;
            let beyond = episode_is_greater_than(&self.unwatched_episodes[i], cur);
            if of_show && beyond && self.unwatched_episodes[i].watched && !stop {
                proof {
                    assert(first_beyond(rem, sid, curp) == Some(0int));
                    assert(collapse(rem, sid, curp) == collapse(
                        rem.remove(0),
                        sid,
                        episode_pair(rem[0]),
                    ));
                    assert(rem.remove(0) =~= rem.drop_first());
                }
                cur = (self.unwatched_episodes[i].season, self.unwatched_episodes[i].number);
            } else {
                let ghost result_pre = result@;
                result.push(shallow_copy_episode(&self.unwatched_episodes[i]));
                proof {
                    assert(episode_views(result@) =~= episode_views(result_pre).push(
                        s0[i as int],
                    ));
                    if !stop {
                        if of_show && beyond {
                            // an unwatched candidate heads the rest: the walk stops here
                            assert(first_beyond(rem, sid, curp) == Some(0int));
                            assert(collapse(rem, sid, curp) == (rem, curp));
                        } else {
                            lemma_collapse_skip_head(rem, sid, curp);
                        }
                    }
                    assert(episode_views(result_pre).push(s0[i as int]) + s0.subrange(
                        i as int + 1,
                        n as int,
                    ) =~= episode_views(result_pre) + rem);
                    assert(episode_views(result_pre).push(s0[i as int]) + collapse(
                        s0.subrange(i as int + 1, n as int),
                        sid,
                        curp,
                    ).0 =~= episode_views(result_pre) + (seq![rem[0]] + collapse(
                        rem.drop_first(),
                        sid,
                        curp,
                    ).0));
                }
                if of_show && beyond {
                    stop = true;
                }
            }
            i += 1;
        }
        proof {
            assert(s0.subrange(n as int, n as int) =~= Seq::<EpisodeView>::empty());
            if !stop {
                assert(collapse(Seq::<EpisodeView>::empty(), sid, (cur.0 as int, cur.1 as int))
                    == (Seq::<EpisodeView>::empty(), (cur.0 as int, cur.1 as int)));
            }
            assert(episode_views(result@) + Seq::<EpisodeView>::empty() =~= episode_views(
                result@,
            ));
            lemma_collapse_wf(s0, sid, p0);
        }
        self.unwatched_episodes = result;
        proof {
            lemma_collapse_monotone(s0, sid, p0);
        }
        cur
    }
}


/// A season mark that reported nothing found no candidate.
proof fn lemma_last_season_pair_none(s: Seq<EpisodeView>, sid: int, season: int)
    requires
        last_season_pair(s, sid, season).is_none(),
    ensures
        forall|k: int| 0 <= k < s.len() ==> !season_candidate(s[k], sid, season),
    decreases s.len(),
{
    if s.len() > 0 {
        lemma_last_season_pair_none(s.drop_last(), sid, season);
        assert forall|k: int| 0 <= k < s.len() implies !season_candidate(s[k], sid, season) by {
            if k < s.len() - 1 {
                assert(s.drop_last()[k] == s[k]);
            }
        }
    }
}

/// What `first_show_index` finds carries the id, and nothing before it does.
proof fn lemma_first_show_index_props(s: Seq<ShowView>, sid: int)
    ensures
        match first_show_index(s, sid) {
            Some(i) => 0 <= i < s.len() && s[i].id == sid && forall|k: int|
                0 <= k < i ==> s[k].id != sid,
            None => forall|k: int| 0 <= k < s.len() ==> s[k].id != sid,
        },
    decreases s.len(),
{
    if s.len() > 0 && s[0].id != sid {
        lemma_first_show_index_props(s.drop_first(), sid);
        assert forall|k: int| 1 <= k < s.len() implies s.drop_first()[k - 1] == s[k] by {}
    }
}

/// Writing the pointer back changes that one field of that one show, keeps
/// the list well-formed, and afterwards the recorded pointer is the written
/// one.
proof fn lemma_set_show_pointer_props(s: Seq<ShowView>, sid: int, p: (int, int))
    requires
        shows_sorted_unique(s),
    ensures
        shows_sorted_unique(set_show_pointer(s, sid, p)),
        first_show_index(s, sid).is_some() ==> show_pointer(set_show_pointer(s, sid, p), sid)
            == p,
        first_show_index(s, sid).is_none() ==> set_show_pointer(s, sid, p) == s,
{
    lemma_first_show_index_props(s, sid);
    match first_show_index(s, sid) {
        None => {},
        Some(i) => {
            let t = s.update(i, ShowView { last_watched_episode: p, ..s[i] });
            assert forall|a: int, b: int| 0 <= a < b < t.len() implies t[a].id < t[b].id by {
                assert(s[a].id < s[b].id);
            }
            lemma_first_show_index_stops(t, sid, i);
        },
    }
}

impl UserData {
    /// Whether an unwatched episode of the show lies strictly between the
    /// pointer and the episode just marked.
    #[verifier::loop_isolation(false)]
    fn has_gap(&self, show_id: usize, ptr: (usize, usize), last: (usize, usize)) -> (r: bool)
        ensures
            r == gap_exists(
                self@.unwatched_episodes,
                show_id as int,
                (ptr.0 as int, ptr.1 as int),
                (last.0 as int, last.1 as int),
            ),
    {
        let ghost s0 = self@.unwatched_episodes;
        let ghost sid = show_id as int;
        let n = self.unwatched_episodes.len();
        let mut found = false;
        let mut i: usize = 0;
        while i < n
            invariant
                i <= n,
                found == exists|k: int|
                    0 <= k < i && next_candidate(s0[k], sid) && pair_lt(
                        (ptr.0 as int, ptr.1 as int),
                        episode_pair(s0[k]),
                    ) && pair_lt(episode_pair(s0[k]), (last.0 as int, last.1 as int)),
            decreases n - i,
        {
            let e = &self.unwatched_episodes[i];
            if e.show_id == show_id && !e.watched && episode_is_greater_than(e, ptr)
                && episode_is_less_than(e, last) {
                proof {
                    assert(next_candidate(s0[i as int], sid));
                }
                found = true;
            }
            i += 1;
        }
        found
    }

    /// Write the watch pointer onto the show at this position.
    fn set_pointer_at(&mut self, idx: usize, ptr: (usize, usize))
        requires
            idx < old(self)@.subscribed_shows.len(),
        ensures
            final(self)@.version == old(self)@.version,
            final(self)@.unwatched_episodes == old(self)@.unwatched_episodes,
            final(self)@.subscribed_shows == old(self)@.subscribed_shows.update(
                idx as int,
                (ShowView {
                    last_watched_episode: (ptr.0 as int, ptr.1 as int),
                    ..old(self)@.subscribed_shows[idx as int]
                }),
            ),
    {
        let ghost s0 = self@.subscribed_shows;
        let mut s = self.subscribed_shows.remove(idx);
        s.last_watched_episode = ptr;
        self.subscribed_shows.insert(idx, s);
        proof {
            assert forall|k: int|
                0 <= k < self.subscribed_shows@.len() implies show_views(
                self.subscribed_shows@,
            )[k] == s0.update(
                idx as int,
                (ShowView {
                    last_watched_episode: (ptr.0 as int, ptr.1 as int),
                    ..s0[idx as int]
                }),
            )[k] by {
                if k == idx {
                    assert(s@ == (ShowView {
                        last_watched_episode: (ptr.0 as int, ptr.1 as int),
                        ..s0[idx as int]
                    }));
                }
            }
            assert(show_views(self.subscribed_shows@) =~= s0.update(
                idx as int,
                (ShowView {
                    last_watched_episode: (ptr.0 as int, ptr.1 as int),
                    ..s0[idx as int]
                }),
            ));
        }
    }

    /// Mark episodes of the show watched, then reconcile the watch pointer.
    ///
    /// With neither season nor episode given, marks the earliest unwatched
    /// episode; with a season alone, that whole season; with both, exactly
    /// that episode; an episode without a season marks nothing. Reports the
    /// last (season, number) marked.
    ///
    /// When the marked episode leaves no unwatched episode behind it (no
    /// gap), consecutive watched episodes beyond the pointer are dropped and
    /// the pointer advances across them; a gap leaves the list and the
    /// pointer untouched, so a later mark can close it.
    pub fn mark_as_watched(
        &mut self,
        show_id: usize,
        season: Option<usize>,
        episode: Option<usize>,
    ) -> (r: Option<(usize, usize)>)
        requires
            old(self).wf(),
        ensures
            final(self).wf(),
            mark_transition(
                old(self)@,
                final(self)@,
                show_id as int,
                opt_int(season),
                opt_int(episode),
                opt_pair_int(r),
            ),
            pair_le(
                show_pointer(old(self)@.subscribed_shows, show_id as int),
                show_pointer(final(self)@.subscribed_shows, show_id as int),
            ),
    {
        let ghost pre = self@;
        let ghost sid = show_id as int;
        let last_marked = match (season, episode) {
            (Some(se), None) => self.mark_season_as_watched(show_id, se),
            (Some(se), Some(ep)) => self.mark_episode_as_watched(show_id, se, ep),
            (None, None) => self.mark_next_episode_as_watched(show_id),
            (None, Some(_)) => None,
        };
        let ghost phase = mark_phase_result(
            pre.unwatched_episodes,
            sid,
            opt_int(season),
            opt_int(episode),
        );
        proof {
            assert(self@.unwatched_episodes == phase.0);
            assert(opt_pair_int(last_marked) == phase.1);
            lemma_first_show_index_props(pre.subscribed_shows, sid);
            if last_marked.is_none() {
                match (opt_int(season), opt_int(episode)) {
                    (Some(se), None) => {
                        lemma_last_season_pair_none(pre.unwatched_episodes, sid, se);
                    },
                    _ => {},
                }
                assert(self@.unwatched_episodes =~= pre.unwatched_episodes);
            }
        }
        if let Some(lm) = last_marked {
            let idx_opt = find_show_index(&self.subscribed_shows, show_id);
            let ptr = match idx_opt {
                Some(idx) => self.subscribed_shows[idx].last_watched_episode,
                None => (0, 0),
            };
            proof {
                assert((ptr.0 as int, ptr.1 as int) == show_pointer(pre.subscribed_shows, sid));
            }
            let gap = self.has_gap(show_id, ptr, lm);
            if !gap {
                let new_ptr = self.collapse_watched(show_id, ptr);
                proof {
                    lemma_set_show_pointer_props(
                        pre.subscribed_shows,
                        sid,
                        (new_ptr.0 as int, new_ptr.1 as int),
                    );
                }
                if let Some(idx) = idx_opt {
                    self.set_pointer_at(idx, new_ptr);
                    proof {
                        assert(self@.subscribed_shows == set_show_pointer(
                            pre.subscribed_shows,
                            sid,
                            (new_ptr.0 as int, new_ptr.1 as int),
                        ));
                        assert forall|a: int, b: int|
                            0 <= a < b < self@.subscribed_shows.len() implies self@
                            .subscribed_shows[a].id < self@.subscribed_shows[b].id by {
                            assert(pre.subscribed_shows[a].id < pre.subscribed_shows[b].id);
                        }
                    }
                }
            }
        }
        last_marked
    }
}


// ---------------------------------------------------------------------------
// Metadata refresh
// ---------------------------------------------------------------------------

/// Index of the stored episode with this catalog episode id, if any.
pub open spec fn first_episode_id_index(s: Seq<EpisodeView>, eid: int) -> Option<int>
    decreases s.len(),
{
    if s.len() == 0 {
        None
    } else if s[0].episode_id == eid {
        Some(0int)
    } else {
        match first_episode_id_index(s.drop_first(), eid) {
            Some(i) => Some(i + 1),
            None => None,
        }
    }
}

proof fn lemma_first_episode_id_index_stops(s: Seq<EpisodeView>, eid: int, i: int)
    requires
        0 <= i < s.len(),
        forall|k: int| 0 <= k < i ==> s[k].episode_id != eid,
        s[i].episode_id == eid,
    ensures
        first_episode_id_index(s, eid) == Some(i),
    decreases s.len(),
{
    if i > 0 {
        lemma_first_episode_id_index_stops(s.drop_first(), eid, i - 1);
    }
}

proof fn lemma_first_episode_id_index_none(s: Seq<EpisodeView>, eid: int)
    requires
        forall|k: int| 0 <= k < s.len() ==> s[k].episode_id != eid,
    ensures
        first_episode_id_index(s, eid).is_none(),
    decreases s.len(),
{
    if s.len() > 0 {
        lemma_first_episode_id_index_none(s.drop_first(), eid);
    }
}

/// Refreshing a show: its stored entry takes the new metadata but keeps its
/// id and watch pointer; the report says whether the catalog's update marker
/// moved. An unsubscribed show changes nothing.
pub open spec fn update_show_result(s: Seq<ShowView>, v: ShowView) -> (Seq<ShowView>, bool) {
    match first_show_index(s, v.id) {
        None => (s, false),
        Some(i) => (
            s.update(i, ShowView { last_watched_episode: s[i].last_watched_episode, ..v }),
            s[i].last_updated != v.last_updated,
        ),
    }
}

/// Refreshing an episode: the stored entry with the same catalog episode id
/// takes the new name, numbering, air time and runtime, keeps its identity
/// and watched flag, and moves to the sorted position of its new numbering.
/// The report says whether such an entry was found.
pub open spec fn update_episode_result(s: Seq<EpisodeView>, e: EpisodeView) -> (Seq<
    EpisodeView,
>, bool) {
    match first_episode_id_index(s, e.episode_id) {
        None => (s, false),
        Some(i) => {
            let u = EpisodeView {
                episode_id: s[i].episode_id,
                show_id: s[i].show_id,
                watched: s[i].watched,
                ..e
            };
            (add_episode_one(s.remove(i), u), true)
        },
    }
}

impl UserData {
    /// Refresh a subscribed show's metadata from a freshly fetched record.
    /// Returns whether the catalog's last-updated marker advanced.
    pub fn update_show(&mut self, show: Show) -> (r: bool)
        requires
            old(self).wf(),
        ensures
            final(self).wf(),
            final(self)@.version == old(self)@.version,
            final(self)@.unwatched_episodes == old(self)@.unwatched_episodes,
            final(self)@.subscribed_shows == update_show_result(
                old(self)@.subscribed_shows,
                show@,
            ).0,
            r == update_show_result(old(self)@.subscribed_shows, show@).1,
    {
        let ghost pre = self@.subscribed_shows;
        let idx = match find_show_index(&self.subscribed_shows, show.id) {
            Some(idx) => idx,
            None => {
                return false;
            },
        };
        let stored = self.subscribed_shows.remove(idx);
        let changed = stored.last_updated != show.last_updated;
        let mut updated = show;
        updated.last_watched_episode = stored.last_watched_episode;
        self.subscribed_shows.insert(idx, updated);
        proof {
            let u = ShowView { last_watched_episode: pre[idx as int].last_watched_episode, ..show@ };
            assert(updated@ == u);
            assert(show_views(self.subscribed_shows@) =~= pre.update(idx as int, u));
            assert forall|a: int, b: int|
                0 <= a < b < self@.subscribed_shows.len() implies self@.subscribed_shows[a].id
                < self@.subscribed_shows[b].id by {
                assert(pre[a].id < pre[b].id);
                assert(pre[idx as int].id == show@.id);
            }
        }
        changed
    }

    /// Refresh a stored episode's metadata from a freshly fetched record.
    /// Returns whether an episode with that catalog id was found.
    #[verifier::loop_isolation(false)]
    pub fn update_episode(&mut self, episode: &Episode) -> (r: bool)
        requires
            old(self).wf(),
        ensures
            final(self).wf(),
            final(self)@.version == old(self)@.version,
            final(self)@.subscribed_shows == old(self)@.subscribed_shows,
            final(self)@.unwatched_episodes == update_episode_result(
                old(self)@.unwatched_episodes,
                episode@,
            ).0,
            r == update_episode_result(old(self)@.unwatched_episodes, episode@).1,
    {
        let ghost pre = self@.unwatched_episodes;
        let n = self.unwatched_episodes.len();
        let mut i: usize = 0;
        while i < n
            invariant
                i <= n,
                self@ == old(self)@,
                n == self.unwatched_episodes@.len(),
                forall|k: int| 0 <= k < i ==> pre[k].episode_id != episode@.episode_id,
            decreases n - i,
        {
            if self.unwatched_episodes[i].episode_id == episode.episode_id {
                proof {
                    lemma_first_episode_id_index_stops(pre, episode@.episode_id, i as int);
                }
                let stored = self.unwatched_episodes.remove(i);
                let ghost srem = pre.remove(i as int);
                proof {
                    assert(episode_views(self.unwatched_episodes@) =~= srem);
                    lemma_remove_wf(pre, i as int);
                }
                let updated = Episode {
                    episode_id: stored.episode_id,
                    show_id: stored.show_id,
                    name: episode.name.clone(),
                    season: episode.season,
                    number: episode.number,
                    airstamp: episode.airstamp,
                    runtime: episode.runtime,
                    watched: stored.watched,
                };
                let ghost u = EpisodeView {
                    episode_id: pre[i as int].episode_id,
                    show_id: pre[i as int].show_id,
                    watched: pre[i as int].watched,
                    ..episode@
                };
                proof {
                    assert(updated@ == u);
                }
                self.add_episode_sorted(updated);
                return true;
            }
            i += 1;
        }
        proof {
            lemma_first_episode_id_index_none(pre, episode@.episode_id);
        }
        false
    }
}


// ---------------------------------------------------------------------------
// Laws of the store
// ---------------------------------------------------------------------------

/// **Uniqueness.** In a well-formed store — and every operation above keeps
/// well-formedness — no two subscribed shows share an id and no two
/// unwatched episodes share an identity key, however the store was built.
pub proof fn lemma_store_collections_unique(d: &UserData)
    requires
        d.wf(),
    ensures
        forall|i: int, j: int|
            0 <= i < j < d@.subscribed_shows.len() ==> d@.subscribed_shows[i].id
                != d@.subscribed_shows[j].id,
        forall|i: int, j: int|
            0 <= i < j < d@.unwatched_episodes.len() ==> !same_episode_key(
                d@.unwatched_episodes[i],
                d@.unwatched_episodes[j],
            ),
{
}

/// **Idempotence for shows.** Adding a show a second time changes nothing:
/// after the first add its id is subscribed, and `add_show` on a subscribed
/// id is the identity.
pub proof fn lemma_add_show_idempotent(s: Seq<ShowView>, v: ShowView)
    requires
        shows_sorted_unique(s),
    ensures
        add_show_spec(add_show_spec(s, v), v) == add_show_spec(s, v),
{
    lemma_add_show_spec_wf(s, v);
}

/// An episode already stored stays stored when another is added.
proof fn lemma_present_preserved(s: Seq<EpisodeView>, f: EpisodeView, e: EpisodeView)
    requires
        episode_key_present(s, e),
    ensures
        episode_key_present(add_episode_one(s, f), e),
{
    if !episode_key_present(s, f) {
        let p = episode_insert_pos(s, f);
        lemma_episode_insert_pos_props(s, f);
        let j = choose|j: int| 0 <= j < s.len() && same_episode_key(s[j], e);
        let t = s.insert(p, f);
        if j < p {
            assert(t[j] == s[j]);
        } else {
            assert(t[j + 1] == s[j]);
        }
    }
}

/// An episode already stored stays stored through a whole batch add.
proof fn lemma_present_preserved_batch(s: Seq<EpisodeView>, new: Seq<EpisodeView>, e: EpisodeView)
    requires
        episode_key_present(s, e),
    ensures
        episode_key_present(add_episodes_spec(s, new), e),
    decreases new.len(),
{
    if new.len() > 0 {
        lemma_present_preserved(s, new[0], e);
        lemma_present_preserved_batch(add_episode_one(s, new[0]), new.drop_first(), e);
    }
}

/// After a batch add, every episode of the batch is stored.
proof fn lemma_batch_all_present(s: Seq<EpisodeView>, new: Seq<EpisodeView>)
    requires
        episodes_sorted(s),
        episodes_unique(s),
    ensures
        forall|k: int|
            0 <= k < new.len() ==> episode_key_present(add_episodes_spec(s, new), new[k]),
    decreases new.len(),
{
    if new.len() > 0 {
        lemma_add_episode_one_wf(s, new[0]);
        let s1 = add_episode_one(s, new[0]);
        lemma_present_preserved_batch(s1, new.drop_first(), new[0]);
        lemma_batch_all_present(s1, new.drop_first());
        assert forall|k: int|
            0 <= k < new.len() implies episode_key_present(add_episodes_spec(s, new), new[k]) by {
            if k > 0 {
                assert(new.drop_first()[k - 1] == new[k]);
            }
        }
    }
}

/// Adding episodes whose keys are all stored already changes nothing.
proof fn lemma_add_batch_identity(s: Seq<EpisodeView>, new: Seq<EpisodeView>)
    requires
        forall|k: int| 0 <= k < new.len() ==> episode_key_present(s, new[k]),
    ensures
        add_episodes_spec(s, new) == s,
    decreases new.len(),
{
    if new.len() > 0 {
        assert(episode_key_present(s, new[0]));
        assert(add_episode_one(s, new[0]) == s);
        assert forall|k: int|
            0 <= k < new.drop_first().len() implies episode_key_present(
            s,
            new.drop_first()[k],
        ) by {
            assert(new.drop_first()[k] == new[k + 1]);
        }
        lemma_add_batch_identity(s, new.drop_first());
    }
}

/// **Idempotence for episodes.** Ingesting the same batch a second time
/// changes nothing: after the first add every key of the batch is stored,
/// and adding a stored episode is the identity.
pub proof fn lemma_add_episodes_idempotent(s: Seq<EpisodeView>, new: Seq<EpisodeView>)
    requires
        episodes_sorted(s),
        episodes_unique(s),
    ensures
        add_episodes_spec(add_episodes_spec(s, new), new) == add_episodes_spec(s, new),
{
    lemma_batch_all_present(s, new);
    lemma_add_batch_identity(add_episodes_spec(s, new), new);
}


// ---------------------------------------------------------------------------
// Sorted listings
// ---------------------------------------------------------------------------

/// Presentation rank of a show's status: running shows first, to-be-
/// determined second, everything else last.
pub open spec fn status_rank(st: Status) -> int {
    match st {
        Status::Running => 0,
        Status::ToBeDetermined => 1,
        _ => 2,
    }
}

/// The most-recent-first listing order: by status rank, then by the
/// catalog's update marker, newest first.
pub open spec fn most_recent_le(a: ShowView, b: ShowView) -> bool {
    status_rank(a.status) < status_rank(b.status) || (status_rank(a.status) == status_rank(
        b.status,
    ) && a.last_updated >= b.last_updated)
}

/// The oldest-first listing order for episodes: by air time ascending;
/// episodes without an air time come last, ordered among themselves in
/// reverse stored order.
pub open spec fn oldest_first_le(a: EpisodeView, b: EpisodeView) -> bool {
    match (a.airstamp, b.airstamp) {
        (Some(x), Some(y)) => x <= y,
        (Some(_), None) => true,
        (None, Some(_)) => false,
        (None, None) => episode_order_le(b, a),
    }
}

/// Views of a sequence of borrowed shows.
pub open spec fn show_ref_views(s: Seq<&Show>) -> Seq<ShowView> {
    s.map_values(|x: &Show| x@)
}

/// Views of a sequence of borrowed episodes.
pub open spec fn episode_ref_views(s: Seq<&Episode>) -> Seq<EpisodeView> {
    s.map_values(|x: &Episode| x@)
}

/// Stable insertion point for the most-recent listing: after every entry
/// that does not come strictly later.
pub open spec fn recent_insert_pos(s: Seq<ShowView>, v: ShowView) -> int
    decreases s.len(),
{
    if s.len() == 0 {
        0
    } else if most_recent_le(s[0], v) {
        1 + recent_insert_pos(s.drop_first(), v)
    } else {
        0
    }
}

/// The most-recent listing: each show inserted in turn at its stable
/// position.
pub open spec fn sort_most_recent(s: Seq<ShowView>) -> Seq<ShowView>
    decreases s.len(),
{
    if s.len() == 0 {
        Seq::empty()
    } else {
        let sorted = sort_most_recent(s.drop_last());
        sorted.insert(recent_insert_pos(sorted, s.last()), s.last())
    }
}

pub open spec fn shows_sorted_most_recent(s: Seq<ShowView>) -> bool {
    forall|i: int, j: int| 0 <= i < j < s.len() ==> most_recent_le(s[i], s[j])
}

/// Stable insertion point for the oldest-first listing.
pub open spec fn oldest_insert_pos(s: Seq<EpisodeView>, v: EpisodeView) -> int
    decreases s.len(),
{
    if s.len() == 0 {
        0
    } else if oldest_first_le(s[0], v) {
        1 + oldest_insert_pos(s.drop_first(), v)
    } else {
        0
    }
}

/// The oldest-first listing: each episode inserted in turn at its stable
/// position.
pub open spec fn sort_oldest_first(s: Seq<EpisodeView>) -> Seq<EpisodeView>
    decreases s.len(),
{
    if s.len() == 0 {
        Seq::empty()
    } else {
        let sorted = sort_oldest_first(s.drop_last());
        sorted.insert(oldest_insert_pos(sorted, s.last()), s.last())
    }
}

pub open spec fn episodes_sorted_oldest_first(s: Seq<EpisodeView>) -> bool {
    forall|i: int, j: int| 0 <= i < j < s.len() ==> oldest_first_le(s[i], s[j])
}

proof fn lemma_recent_insert_pos_props(s: Seq<ShowView>, v: ShowView)
    ensures
        0 <= recent_insert_pos(s, v) <= s.len(),
        forall|k: int| 0 <= k < recent_insert_pos(s, v) ==> most_recent_le(s[k], v),
        recent_insert_pos(s, v) < s.len() ==> !most_recent_le(s[recent_insert_pos(s, v)], v),
    decreases s.len(),
{
    if s.len() > 0 && most_recent_le(s[0], v) {
        lemma_recent_insert_pos_props(s.drop_first(), v);
        assert forall|k: int| 0 <= k < recent_insert_pos(s, v) implies most_recent_le(
            s[k],
            v,
        ) by {
            if k > 0 {
                assert(s.drop_first()[k - 1] == s[k]);
            }
        }
    }
}

proof fn lemma_recent_insert_sorted(s: Seq<ShowView>, v: ShowView)
    requires
        shows_sorted_most_recent(s),
    ensures
        shows_sorted_most_recent(s.insert(recent_insert_pos(s, v), v)),
{
    let p = recent_insert_pos(s, v);
    lemma_recent_insert_pos_props(s, v);
    let t = s.insert(p, v);
    assert forall|i: int, j: int| 0 <= i < j < t.len() implies most_recent_le(t[i], t[j]) by {
        if j == p {
            assert(t[i] == s[i]);
        } else if i == p {
            assert(t[j] == s[j - 1]);
            assert(!most_recent_le(s[p], v));
            assert(most_recent_le(v, s[p]));
            if p < j - 1 {
                assert(most_recent_le(s[p], s[j - 1]));
            }
        } else if i < p && j > p {
            assert(t[i] == s[i]);
            assert(t[j] == s[j - 1]);
        } else if j < p {
            assert(t[i] == s[i]);
            assert(t[j] == s[j]);
        } else {
            assert(t[i] == s[i - 1]);
            assert(t[j] == s[j - 1]);
        }
    }
}

proof fn lemma_sort_most_recent_sorted(s: Seq<ShowView>)
    ensures
        shows_sorted_most_recent(sort_most_recent(s)),
    decreases s.len(),
{
    if s.len() > 0 {
        lemma_sort_most_recent_sorted(s.drop_last());
        lemma_recent_insert_sorted(sort_most_recent(s.drop_last()), s.last());
    }
}

proof fn lemma_oldest_insert_pos_props(s: Seq<EpisodeView>, v: EpisodeView)
    ensures
        0 <= oldest_insert_pos(s, v) <= s.len(),
        forall|k: int| 0 <= k < oldest_insert_pos(s, v) ==> oldest_first_le(s[k], v),
        oldest_insert_pos(s, v) < s.len() ==> !oldest_first_le(s[oldest_insert_pos(s, v)], v),
    decreases s.len(),
{
    if s.len() > 0 && oldest_first_le(s[0], v) {
        lemma_oldest_insert_pos_props(s.drop_first(), v);
        assert forall|k: int| 0 <= k < oldest_insert_pos(s, v) implies oldest_first_le(
            s[k],
            v,
        ) by {
            if k > 0 {
                assert(s.drop_first()[k - 1] == s[k]);
            }
        }
    }
}

proof fn lemma_oldest_insert_sorted(s: Seq<EpisodeView>, v: EpisodeView)
    requires
        episodes_sorted_oldest_first(s),
    ensures
        episodes_sorted_oldest_first(s.insert(oldest_insert_pos(s, v), v)),
{
    let p = oldest_insert_pos(s, v);
    lemma_oldest_insert_pos_props(s, v);
    let t = s.insert(p, v);
    assert forall|i: int, j: int| 0 <= i < j < t.len() implies oldest_first_le(t[i], t[j]) by {
        if j == p {
            assert(t[i] == s[i]);
        } else if i == p {
            assert(t[j] == s[j - 1]);
            assert(!oldest_first_le(s[p], v));
            assert(oldest_first_le(v, s[p]));
            if p < j - 1 {
                assert(oldest_first_le(s[p], s[j - 1]));
            }
        } else if i < p && j > p {
            assert(t[i] == s[i]);
            assert(t[j] == s[j - 1]);
        } else if j < p {
            assert(t[i] == s[i]);
            assert(t[j] == s[j]);
        } else {
            assert(t[i] == s[i - 1]);
            assert(t[j] == s[j - 1]);
        }
    }
}

proof fn lemma_sort_oldest_first_sorted(s: Seq<EpisodeView>)
    ensures
        episodes_sorted_oldest_first(sort_oldest_first(s)),
    decreases s.len(),
{
    if s.len() > 0 {
        lemma_sort_oldest_first_sorted(s.drop_last());
        lemma_oldest_insert_sorted(sort_oldest_first(s.drop_last()), s.last());
    }
}

/// Most-recent insertion order, on borrowed shows.
fn most_recent_le_exec(a: &Show, b: &Show) -> (r: bool)
    ensures
        r == most_recent_le(a@, b@),
{
    let ra: u8 = match a.status {
        Status::Running => 0,
        Status::ToBeDetermined => 1,
        _ => 2,
    };
    let rb: u8 = match b.status {
        Status::Running => 0,
        Status::ToBeDetermined => 1,
        _ => 2,
    };
    ra < rb || (ra == rb && a.last_updated >= b.last_updated)
}

/// Oldest-first insertion order, on borrowed episodes.
fn oldest_first_le_exec(a: &Episode, b: &Episode) -> (r: bool)
    ensures
        r == oldest_first_le(a@, b@),
{
    match (a.airstamp, b.airstamp) {
        (Some(x), Some(y)) => x <= y,
        (Some(_), None) => true,
        (None, Some(_)) => false,
        (None, None) => episode_le(b, a),
    }
}

impl UserData {
    /// The subscribed shows for display: running shows first, then
    /// to-be-determined ones, then the rest, each group newest-updated
    /// first; shows the listing order does not separate keep their stored
    /// order.
    #[verifier::loop_isolation(false)]
    pub fn subscribed_shows_by_most_recent(&self) -> (r: Vec<&Show>)
        ensures
            show_ref_views(r@) == sort_most_recent(self@.subscribed_shows),
            shows_sorted_most_recent(show_ref_views(r@)),
    {
        let ghost sv = self@.subscribed_shows;
        let n = self.subscribed_shows.len();
        let mut out: Vec<&Show> = Vec::new();
        let mut i: usize = 0;
        proof {
            assert(sv.subrange(0, 0) =~= Seq::<ShowView>::empty());
            assert(show_ref_views(out@) =~= Seq::<ShowView>::empty());
        }
        while i < n
            invariant
                i <= n,
                show_ref_views(out@) == sort_most_recent(sv.subrange(0, i as int)),
            decreases n - i,
        {
            let v = &self.subscribed_shows[i];
            let ghost sorted = show_ref_views(out@);
            let p2 = insert_pos_scan_shows(&out, v);
            out.insert(p2, v);
            proof {
                lemma_insert_pos_scan_tie(sorted, v@, p2 as int);
                assert(sv.subrange(0, i as int + 1).drop_last() =~= sv.subrange(0, i as int));
                assert(sv.subrange(0, i as int + 1).last() == sv[i as int]);
                assert(v@ == sv[i as int]);
                assert(show_ref_views(out@) =~= sorted.insert(
                    recent_insert_pos(sorted, sv[i as int]),
                    sv[i as int],
                ));
            }
            i += 1;
        }
        proof {
            assert(sv.subrange(0, n as int) =~= sv);
            lemma_sort_most_recent_sorted(sv);
        }
        out
    }

    /// The unwatched episodes for display, oldest air time first; episodes
    /// with no air time yet come last.
    #[verifier::loop_isolation(false)]
    pub fn unwatched_episodes_oldest_first(&self) -> (r: Vec<&Episode>)
        ensures
            episode_ref_views(r@) == sort_oldest_first(self@.unwatched_episodes),
            episodes_sorted_oldest_first(episode_ref_views(r@)),
    {
        let ghost ev = self@.unwatched_episodes;
        let n = self.unwatched_episodes.len();
        let mut out: Vec<&Episode> = Vec::new();
        let mut i: usize = 0;
        proof {
            assert(ev.subrange(0, 0) =~= Seq::<EpisodeView>::empty());
            assert(episode_ref_views(out@) =~= Seq::<EpisodeView>::empty());
        }
        while i < n
            invariant
                i <= n,
                episode_ref_views(out@) == sort_oldest_first(ev.subrange(0, i as int)),
            decreases n - i,
        {
            let v = &self.unwatched_episodes[i];
            let ghost sorted = episode_ref_views(out@);
            let p = insert_pos_scan_episodes(&out, v);
            out.insert(p, v);
            proof {
                lemma_insert_pos_scan_tie_episodes(sorted, v@, p as int);
                assert(ev.subrange(0, i as int + 1).drop_last() =~= ev.subrange(0, i as int));
                assert(ev.subrange(0, i as int + 1).last() == ev[i as int]);
                assert(v@ == ev[i as int]);
                assert(episode_ref_views(out@) =~= sorted.insert(
                    oldest_insert_pos(sorted, ev[i as int]),
                    ev[i as int],
                ));
            }
            i += 1;
        }
        proof {
            assert(ev.subrange(0, n as int) =~= ev);
            lemma_sort_oldest_first_sorted(ev);
        }
        out
    }
}

/// First position in the listing under construction whose entry comes
/// strictly after the new show.
fn insert_pos_scan_shows<'a>(out: &Vec<&'a Show>, v: &Show) -> (p: usize)
    ensures
        p <= out@.len(),
        forall|k: int| 0 <= k < p ==> most_recent_le(show_ref_views(out@)[k], v@),
        p < out@.len() ==> !most_recent_le(show_ref_views(out@)[p as int], v@),
{
    let mut p: usize = 0;
    let n = out.len();
    while p < n
        invariant
            p <= n,
            n == out@.len(),
            forall|k: int| 0 <= k < p ==> most_recent_le(show_ref_views(out@)[k], v@),
        decreases n - p,
    {
        if !most_recent_le_exec(&out[p], v) {
            return p;
        }
        p += 1;
    }
    p
}

proof fn lemma_insert_pos_scan_tie(s: Seq<ShowView>, v: ShowView, p: int)
    requires
        0 <= p <= s.len(),
        forall|k: int| 0 <= k < p ==> most_recent_le(s[k], v),
        p < s.len() ==> !most_recent_le(s[p], v),
    ensures
        recent_insert_pos(s, v) == p,
    decreases s.len(),
{
    if p == 0 {
    } else {
        assert(most_recent_le(s[0], v));
        lemma_insert_pos_scan_tie(s.drop_first(), v, p - 1);
    }
}

fn insert_pos_scan_episodes<'a>(out: &Vec<&'a Episode>, v: &Episode) -> (p: usize)
    ensures
        p <= out@.len(),
        forall|k: int| 0 <= k < p ==> oldest_first_le(episode_ref_views(out@)[k], v@),
        p < out@.len() ==> !oldest_first_le(episode_ref_views(out@)[p as int], v@),
{
    let mut p: usize = 0;
    let n = out.len();
    while p < n
        invariant
            p <= n,
            n == out@.len(),
            forall|k: int| 0 <= k < p ==> oldest_first_le(episode_ref_views(out@)[k], v@),
        decreases n - p,
    {
        if !oldest_first_le_exec(&out[p], v) {
            return p;
        }
        p += 1;
    }
    p
}

proof fn lemma_insert_pos_scan_tie_episodes(s: Seq<EpisodeView>, v: EpisodeView, p: int)
    requires
        0 <= p <= s.len(),
        forall|k: int| 0 <= k < p ==> oldest_first_le(s[k], v),
        p < s.len() ==> !oldest_first_le(s[p], v),
    ensures
        oldest_insert_pos(s, v) == p,
    decreases s.len(),
{
    if p == 0 {
    } else {
        assert(oldest_first_le(s[0], v));
        lemma_insert_pos_scan_tie_episodes(s.drop_first(), v, p - 1);
    }
}

} // verus!
