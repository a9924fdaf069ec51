//! The sync reconciler: folds freshly fetched shows and episodes into the
//! progress store.
//!
//! Shows are refreshed first; episodes are then fetched only for shows whose
//! catalog update marker moved (or all of them, when forced). Of the fetched
//! episodes, those not yet aired, those at or behind the show's watch
//! pointer, and those already stored (refreshed in place) are discarded; the
//! rest are the newly arrived unwatched episodes.

use vstd::prelude::*;

use crate::tvmaze_api::Episode;
use crate::tvmaze_api::EpisodeView;
use crate::tvmaze_api::Show;
use crate::tvmaze_api::ShowView;
use crate::tvmaze_api::episode_is_greater_than;
use crate::tvmaze_api::episode_pair;
use crate::tvmaze_api::episode_views;
use crate::tvmaze_api::pair_lt;
use crate::tvmaze_api::show_views;
use crate::user_data::UserData;
use crate::user_data::UserDataView;
use crate::user_data::shallow_copy_episode;
use crate::user_data::show_id_present;
use crate::user_data::show_pointer;
use crate::user_data::update_episode_result;
use crate::user_data::update_show_result;

verus! {

/// Relies on chrono::Utc::now and chrono::DateTime::timestamp: the current
/// moment of the system clock as a Unix timestamp in seconds. Nothing is
/// promised of the value; callers state what holds whatever the clock says.
#[verifier::external_body]
fn now_unix_timestamp() -> i64 {
    chrono::Utc::now().timestamp()
}

/// An episode that has aired by the given moment: its air time is known and
/// not in the future. A missing air time never counts as aired.
pub open spec fn aired_by(e: EpisodeView, now: int) -> bool {
    match e.airstamp {
        Some(t) => t <= now,
        None => false,
    }
}

/// An episode still ahead of its show's watch pointer, for a show that is
/// subscribed at all.
pub open spec fn beyond_pointer(shows: Seq<ShowView>, e: EpisodeView) -> bool {
    show_id_present(shows, e.show_id) && pair_lt(show_pointer(shows, e.show_id), episode_pair(e))
}

/// Keep exactly the episodes that have aired by `now`, in order.
#[verifier::loop_isolation(false)]
pub fn discard_not_aired_at(episodes: Vec<Episode>, now: i64) -> (r: Vec<Episode>)
    ensures
        episode_views(r@) == episode_views(episodes@).filter(
            |e: EpisodeView| aired_by(e, now as int),
        ),
        forall|i: int| 0 <= i < r@.len() ==> aired_by(#[trigger] r@[i]@, now as int),
{
    let ghost pre = episode_views(episodes@);
    let ghost pred = |e: EpisodeView| aired_by(e, now as int);
    let mut kept: Vec<Episode> = Vec::new();
    let mut i: usize = 0;
    let n = episodes.len();
    proof {
        assert(pre.subrange(0, 0).filter(pred) =~= Seq::<EpisodeView>::empty());
        assert(episode_views(kept@) =~= Seq::<EpisodeView>::empty());
    }
    while i < n
        invariant
            i <= n,
            episode_views(kept@) == pre.subrange(0, i as int).filter(pred),
            forall|k: int| 0 <= k < kept@.len() ==> aired_by(#[trigger] kept@[k]@, now as int),
        decreases n - i,
    {
        let ghost prefix = pre.subrange(0, i as int);
        let keep = match episodes[i].airstamp {
            Some(t) => t <= now,
            None => false,
        };
        if keep {
            let e = shallow_copy_episode(&episodes[i]);
            kept.push(e);
        }
        proof {
            reveal(Seq::filter);
            let q = prefix.push(pre[i as int]);
            assert(pre.subrange(0, i as int + 1) =~= q);
            assert(q.drop_last() =~= prefix);
            assert(q.drop_last() == prefix);
            assert(q.last() == pre[i as int]);
            assert(episodes@[i as int]@ == pre[i as int]);
            assert(pred(pre[i as int]) == keep);
            if keep {
                assert(q.filter(pred) == prefix.filter(pred).push(pre[i as int]));
                assert(episode_views(kept@) =~= prefix.filter(pred).push(pre[i as int]));
            } else {
                assert(q.filter(pred) == prefix.filter(pred));
            }
        }
        i += 1;
    }
    proof {
        assert(pre.subrange(0, n as int) =~= pre);
    }
    kept
}

/// Keep exactly the episodes that have aired by the moment of the call,
/// and report that moment. Whatever the clock says, no episode without an
/// air time survives this filter.
pub fn discard_not_aired(episodes: Vec<Episode>) -> (r: (Vec<Episode>, i64))
    ensures
        episode_views(r.0@) == episode_views(episodes@).filter(
            |e: EpisodeView| aired_by(e, r.1 as int),
        ),
        forall|i: int| 0 <= i < r.0@.len() ==> aired_by(#[trigger] r.0@[i]@, r.1 as int),
{
    let now = now_unix_timestamp();
    let kept = discard_not_aired_at(episodes, now);
    (kept, now)
}

/// Keep exactly the episodes lying strictly beyond their show's watch
/// pointer; episodes of unsubscribed shows are dropped.
#[verifier::loop_isolation(false)]
pub fn discard_watched_by_pointer(data: &UserData, episodes: Vec<Episode>) -> (r: Vec<Episode>)
    ensures
        episode_views(r@) == episode_views(episodes@).filter(
            |e: EpisodeView| beyond_pointer(data@.subscribed_shows, e),
        ),
{
    let ghost shows = data@.subscribed_shows;
    let ghost pre = episode_views(episodes@);
    let ghost pred = |e: EpisodeView| beyond_pointer(shows, e);
    let mut kept: Vec<Episode> = Vec::new();
    let mut i: usize = 0;
    let n = episodes.len();
    proof {
        assert(pre.subrange(0, 0).filter(pred) =~= Seq::<EpisodeView>::empty());
        assert(episode_views(kept@) =~= Seq::<EpisodeView>::empty());
    }
    while i < n
        invariant
            i <= n,
            episode_views(kept@) == pre.subrange(0, i as int).filter(pred),
        decreases n - i,
    {
        let ghost prefix = pre.subrange(0, i as int);
        let e = &episodes[i];
        let keep = match data.find_subscribed_pointer(e.show_id) {
            Some(ptr) => episode_is_greater_than(e, ptr),
            None => false,
        };
        if keep {
            let copy = shallow_copy_episode(e);
            kept.push(copy);
        }
        proof {
            reveal(Seq::filter);
            let q = prefix.push(pre[i as int]);
            assert(pre.subrange(0, i as int + 1) =~= q);
            assert(q.drop_last() =~= prefix);
            assert(q.drop_last() == prefix);
            assert(q.last() == pre[i as int]);
            assert(episodes@[i as int]@ == pre[i as int]);
            assert(pred(pre[i as int]) == keep);
            if keep {
                assert(q.filter(pred) == prefix.filter(pred).push(pre[i as int]));
                assert(episode_views(kept@) =~= prefix.filter(pred).push(pre[i as int]));
            } else {
                assert(q.filter(pred) == prefix.filter(pred));
            }
        }
        i += 1;
    }
    proof {
        assert(pre.subrange(0, n as int) =~= pre);
    }
    kept
}

/// Refreshing fetched shows one by one: how the show list evolves, and which
/// show ids are reported as changed (all of them, when forced).
pub open spec fn update_shows_fold(s: Seq<ShowView>, new: Seq<ShowView>, force: bool) -> (Seq<
    ShowView,
>, Seq<int>)
    decreases new.len(),
{
    if new.len() == 0 {
        (s, Seq::empty())
    } else {
        let first = update_show_result(s, new[0]);
        let rest = update_shows_fold(first.0, new.drop_first(), force);
        (
            rest.0,
            if first.1 || force {
                seq![new[0].id] + rest.1
            } else {
                rest.1
            },
        )
    }
}

/// Refreshing fetched episodes one by one: how the episode list evolves, and
/// which fetched episodes were new to the store — those are kept for
/// ingestion, in fetched order.
pub open spec fn refresh_episodes_fold(s: Seq<EpisodeView>, new: Seq<EpisodeView>) -> (Seq<
    EpisodeView,
>, Seq<EpisodeView>)
    decreases new.len(),
{
    if new.len() == 0 {
        (s, Seq::empty())
    } else {
        let first = update_episode_result(s, new[0]);
        let rest = refresh_episodes_fold(first.0, new.drop_first());
        (
            rest.0,
            if first.1 {
                rest.1
            } else {
                seq![new[0]] + rest.1
            },
        )
    }
}

impl UserData {
    /// The watch pointer of the subscribed show with this id, if any.
    pub fn find_subscribed_pointer(&self, show_id: usize) -> (r: Option<(usize, usize)>)
        ensures
            match r {
                Some(p) => show_id_present(self@.subscribed_shows, show_id as int) && (
                p.0 as int,
                p.1 as int,
                ) == show_pointer(self@.subscribed_shows, show_id as int),
                None => !show_id_present(self@.subscribed_shows, show_id as int),
            },
    {
        let shows = self.subscribed_shows();
        let n = shows.len();
        let mut i: usize = 0;
        while i < n
            invariant
                i <= n,
                n == shows@.len(),
                show_views(shows@) == self@.subscribed_shows,
                forall|k: int| 0 <= k < i ==> self@.subscribed_shows[k].id != show_id as int,
            decreases n - i,
        {
            if shows[i].id == show_id {
                proof {
                    crate::user_data::lemma_first_show_index_stops(
                        self@.subscribed_shows,
                        show_id as int,
                        i as int,
                    );
                }
                return Some(shows[i].last_watched_episode);
            }
            i += 1;
        }
        proof {
            crate::user_data::lemma_first_show_index_none(
                self@.subscribed_shows,
                show_id as int,
            );
        }
        None
    }

    /// Refresh every fetched show's metadata; report the ids whose update
    /// marker moved — or every fetched id, when `force` is set — in fetched
    /// order. Episodes are then fetched only for the reported ids.
    #[verifier::loop_isolation(false)]
    pub fn update_subscribed_shows(&mut self, shows: Vec<Show>, force: bool) -> (r: Vec<usize>)
        requires
            old(self).wf(),
        ensures
            final(self).wf(),
            final(self)@.version == old(self)@.version,
            final(self)@.unwatched_episodes == old(self)@.unwatched_episodes,
            final(self)@.subscribed_shows == update_shows_fold(
                old(self)@.subscribed_shows,
                show_views(shows@),
                force,
            ).0,
            r@.map_values(|x: usize| x as int) == update_shows_fold(
                old(self)@.subscribed_shows,
                show_views(shows@),
                force,
            ).1,
    {
        let ghost incoming = show_views(shows@);
        let mut rest = shows;
        let mut ids: Vec<usize> = Vec::new();
        let ghost mut count: int = 0;
        proof {
            assert(show_views(rest@) =~= incoming.subrange(0, incoming.len() as int));
            assert(ids@.map_values(|x: usize| x as int) =~= Seq::<int>::empty());
        }
        while rest.len() > 0
            invariant
                0 <= count,
                count + rest@.len() == incoming.len(),
                show_views(rest@) == incoming.subrange(count, incoming.len() as int),
                self.wf(),
                self@.version == old(self)@.version,
                self@.unwatched_episodes == old(self)@.unwatched_episodes,
                ({
                    let whole = update_shows_fold(old(self)@.subscribed_shows, incoming, force);
                    let tail = update_shows_fold(
                        self@.subscribed_shows,
                        incoming.subrange(count, incoming.len() as int),
                        force,
                    );
                    whole.0 == tail.0 && whole.1 == ids@.map_values(|x: usize| x as int) + tail.1
                }),
            decreases rest@.len(),
        {
            let ghost rem = incoming.subrange(count, incoming.len() as int);
            let ghost rest_pre = rest@;
            let s = rest.remove(0);
            proof {
                assert(show_views(rest_pre)[0] == s@);
                assert(rem[0] == s@);
                assert(rem.drop_first() =~= incoming.subrange(count + 1, incoming.len() as int));
                assert(show_views(rest@) =~= incoming.subrange(count + 1, incoming.len() as int));
            }
            let id = s.id;
            let changed = self.update_show(s);
            if changed || force {
                let ghost ids_pre = ids@;
                ids.push(id);
                proof {
                    assert(ids@.map_values(|x: usize| x as int) =~= ids_pre.map_values(
                        |x: usize| x as int,
                    ).push(id as int));
                    let tail2 = update_shows_fold(
                        self@.subscribed_shows,
                        rem.drop_first(),
                        force,
                    );
                    assert(ids_pre.map_values(|x: usize| x as int) + (seq![id as int] + tail2.1)
                        =~= ids@.map_values(|x: usize| x as int) + tail2.1);
                }
            }
            proof {
                count = count + 1;
            }
        }
        proof {
            assert(incoming.subrange(count, incoming.len() as int) =~= Seq::<ShowView>::empty());
            assert(ids@.map_values(|x: usize| x as int) + Seq::<int>::empty() =~= ids@.map_values(
                |x: usize| x as int,
            ));
        }
        ids
    }

    /// Refresh the metadata of every fetched episode already stored, and
    /// hand back — in fetched order — those the store did not know yet.
    #[verifier::loop_isolation(false)]
    pub fn refresh_known_episodes(&mut self, episodes: Vec<Episode>) -> (r: Vec<Episode>)
        requires
            old(self).wf(),
        ensures
            final(self).wf(),
            final(self)@.version == old(self)@.version,
            final(self)@.subscribed_shows == old(self)@.subscribed_shows,
            final(self)@.unwatched_episodes == refresh_episodes_fold(
                old(self)@.unwatched_episodes,
                episode_views(episodes@),
            ).0,
            episode_views(r@) == refresh_episodes_fold(
                old(self)@.unwatched_episodes,
                episode_views(episodes@),
            ).1,
    {
        let ghost incoming = episode_views(episodes@);
        let mut rest = episodes;
        let mut kept: Vec<Episode> = Vec::new();
        let ghost mut count: int = 0;
        proof {
            assert(episode_views(rest@) =~= incoming.subrange(0, incoming.len() as int));
            assert(episode_views(kept@) =~= Seq::<EpisodeView>::empty());
        }
        while rest.len() > 0
            invariant
                0 <= count,
                count + rest@.len() == incoming.len(),
                episode_views(rest@) == incoming.subrange(count, incoming.len() as int),
                self.wf(),
                self@.version == old(self)@.version,
                self@.subscribed_shows == old(self)@.subscribed_shows,
                ({
                    let whole = refresh_episodes_fold(old(self)@.unwatched_episodes, incoming);
                    let tail = refresh_episodes_fold(
                        self@.unwatched_episodes,
                        incoming.subrange(count, incoming.len() as int),
                    );
                    whole.0 == tail.0 && whole.1 == episode_views(kept@) + tail.1
                }),
            decreases rest@.len(),
        {
            let ghost rem = incoming.subrange(count, incoming.len() as int);
            let ghost rest_pre = rest@;
            let e = rest.remove(0);
            proof {
                assert(episode_views(rest_pre)[0] == e@);
                assert(rem[0] == e@);
                assert(rem.drop_first() =~= incoming.subrange(count + 1, incoming.len() as int));
                assert(episode_views(rest@) =~= incoming.subrange(
                    count + 1,
                    incoming.len() as int,
                ));
            }
            let known = self.update_episode(&e);
            if !known {
                let ghost kept_pre = kept@;
                kept.push(e);
                proof {
                    let tail2 = refresh_episodes_fold(self@.unwatched_episodes, rem.drop_first());
                    assert(episode_views(kept_pre) + (seq![rem[0]] + tail2.1) =~= episode_views(
                        kept@,
                    ) + tail2.1);
                }
            }
            proof {
                count = count + 1;
            }
        }
        proof {
            assert(incoming.subrange(count, incoming.len() as int)
                =~= Seq::<EpisodeView>::empty());
            assert(episode_views(kept@) + Seq::<EpisodeView>::empty() =~= episode_views(kept@));
        }
        kept
    }
}


/// Keep exactly the episodes strictly after the given (season, number) —
/// used when a new subscription starts part-way into a show.
#[verifier::loop_isolation(false)]
pub fn discard_up_to(episodes: Vec<Episode>, last: (usize, usize)) -> (r: Vec<Episode>)
    ensures
        episode_views(r@) == episode_views(episodes@).filter(
            |e: EpisodeView| pair_lt((last.0 as int, last.1 as int), episode_pair(e)),
        ),
{
    let ghost pre = episode_views(episodes@);
    let ghost pred = |e: EpisodeView| pair_lt((last.0 as int, last.1 as int), episode_pair(e));
    let mut kept: Vec<Episode> = Vec::new();
    let mut i: usize = 0;
    let n = episodes.len();
    proof {
        assert(pre.subrange(0, 0).filter(pred) =~= Seq::<EpisodeView>::empty());
        assert(episode_views(kept@) =~= Seq::<EpisodeView>::empty());
    }
    while i < n
        invariant
            i <= n,
            episode_views(kept@) == pre.subrange(0, i as int).filter(pred),
        decreases n - i,
    {
        let ghost prefix = pre.subrange(0, i as int);
        let keep = episode_is_greater_than(&episodes[i], last);
        if keep {
            let e = shallow_copy_episode(&episodes[i]);
            kept.push(e);
        }
        proof {
            reveal(Seq::filter);
            let q = prefix.push(pre[i as int]);
            assert(pre.subrange(0, i as int + 1) =~= q);
            assert(q.drop_last() =~= prefix);
            assert(q.drop_last() == prefix);
            assert(q.last() == pre[i as int]);
            assert(episodes@[i as int]@ == pre[i as int]);
            assert(pred(pre[i as int]) == keep);
            if keep {
                assert(q.filter(pred) == prefix.filter(pred).push(pre[i as int]));
                assert(episode_views(kept@) =~= prefix.filter(pred).push(pre[i as int]));
            } else {
                assert(q.filter(pred) == prefix.filter(pred));
            }
        }
        i += 1;
    }
    proof {
        assert(pre.subrange(0, n as int) =~= pre);
    }
    kept
}

/// What the reconciler ingests, given the fetched episodes and the moment:
/// of the episodes aired by then and still beyond their show's pointer,
/// those the store does not already know.
pub open spec fn newly_arrived(
    pre: UserDataView,
    fetched: Seq<EpisodeView>,
    now: int,
) -> Seq<EpisodeView> {
    let aired = fetched.filter(|e: EpisodeView| aired_by(e, now));
    let ahead = aired.filter(|e: EpisodeView| beyond_pointer(pre.subscribed_shows, e));
    refresh_episodes_fold(pre.unwatched_episodes, ahead).1
}

/// Everything a fold keeps was among its input.
proof fn lemma_refresh_fold_kept_from_input(s: Seq<EpisodeView>, new: Seq<EpisodeView>)
    ensures
        forall|i: int|
            0 <= i < refresh_episodes_fold(s, new).1.len() ==> new.contains(
                #[trigger] refresh_episodes_fold(s, new).1[i],
            ),
    decreases new.len(),
{
    if new.len() > 0 {
        let first = update_episode_result(s, new[0]);
        let rest = refresh_episodes_fold(first.0, new.drop_first());
        lemma_refresh_fold_kept_from_input(first.0, new.drop_first());
        let kept = refresh_episodes_fold(s, new).1;
        assert forall|i: int| 0 <= i < kept.len() implies new.contains(#[trigger] kept[i]) by {
            if first.1 {
                let j = choose|j: int|
                    0 <= j < new.drop_first().len() && new.drop_first()[j] == kept[i];
                assert(new[j + 1] == kept[i]);
            } else {
                if i == 0 {
                    assert(kept[0] == new[0]);
                } else {
                    assert(kept[i] == rest.1[i - 1]);
                    let j = choose|j: int|
                        0 <= j < new.drop_first().len() && new.drop_first()[j] == rest.1[i - 1];
                    assert(new[j + 1] == kept[i]);
                }
            }
        }
    }
}

impl UserData {
    /// The episode half of a sync, in one verified pass: discard fetched
    /// episodes that have not aired by `now`, discard those at or behind
    /// their show's watch pointer, refresh those already stored, and ingest
    /// the remainder as newly arrived unwatched episodes. Returns copies of
    /// the newly arrived episodes, in fetched order, for display.
    ///
    /// No episode without an air time, and none with an air time after
    /// `now`, is ever among the new arrivals.
    #[verifier::loop_isolation(false)]
    pub fn integrate_fetched_episodes_at(&mut self, episodes: Vec<Episode>, now: i64) -> (r: Vec<
        Episode,
    >)
        requires
            old(self).wf(),
        ensures
            final(self).wf(),
            final(self)@.version == old(self)@.version,
            episode_views(r@) == newly_arrived(old(self)@, episode_views(episodes@), now as int),
            final(self)@.subscribed_shows == update_shows_fold(
                old(self)@.subscribed_shows,
                Seq::<ShowView>::empty(),
                false,
            ).0,
            final(self)@.unwatched_episodes == crate::user_data::add_episodes_spec(
                refresh_episodes_fold(
                    old(self)@.unwatched_episodes,
                    newly_arrived_input(old(self)@, episode_views(episodes@), now as int),
                ).0,
                newly_arrived(old(self)@, episode_views(episodes@), now as int),
            ),
            forall|i: int| 0 <= i < r@.len() ==> aired_by(#[trigger] r@[i]@, now as int),
    {
        let ghost pre = self@;
        let ghost fetched = episode_views(episodes@);
        let aired = discard_not_aired_at(episodes, now);
        let ahead = discard_watched_by_pointer(self, aired);
        let ghost ahead_views = episode_views(ahead@);
        let fresh = self.refresh_known_episodes(ahead);
        proof {
            let aired_seq = fetched.filter(|e: EpisodeView| aired_by(e, now as int));
            let ahead_seq = aired_seq.filter(
                |e: EpisodeView| beyond_pointer(pre.subscribed_shows, e),
            );
            assert(ahead_views == ahead_seq);
            lemma_refresh_fold_kept_from_input(pre.unwatched_episodes, ahead_seq);
            crate::user_data::lemma_filter_elements(
                aired_seq,
                |e: EpisodeView| beyond_pointer(pre.subscribed_shows, e),
            );
            assert forall|i: int|
                0 <= i < episode_views(fresh@).len() implies aired_by(
                #[trigger] episode_views(fresh@)[i],
                now as int,
            ) by {
                let x = episode_views(fresh@)[i];
                assert(ahead_seq.contains(x));
                let j = choose|j: int| 0 <= j < ahead_seq.len() && ahead_seq[j] == x;
                let k = choose|k: int| 0 <= k < aired_seq.len() && aired_seq[k] == ahead_seq[j];
                fetched.lemma_filter_pred(|e: EpisodeView| aired_by(e, now as int), k);
            }
        }
        let mut copies: Vec<Episode> = Vec::new();
        let mut i: usize = 0;
        let n = fresh.len();
        while i < n
            invariant
                i <= n,
                n == fresh@.len(),
                episode_views(copies@) == episode_views(fresh@).subrange(0, i as int),
                forall|k: int|
                    0 <= k < copies@.len() ==> aired_by(#[trigger] copies@[k]@, now as int),
            decreases n - i,
        {
            let c = shallow_copy_episode(&fresh[i]);
            copies.push(c);
            proof {
                assert(episode_views(fresh@).subrange(0, i as int + 1) =~= episode_views(
                    fresh@,
                ).subrange(0, i as int).push(episode_views(fresh@)[i as int]));
                assert(episode_views(copies@) =~= episode_views(fresh@).subrange(
                    0,
                    i as int + 1,
                ));
            }
            i += 1;
        }
        proof {
            assert(episode_views(fresh@).subrange(0, n as int) =~= episode_views(fresh@));
        }
        self.add_episodes(fresh);
        copies
    }

    /// As `integrate_fetched_episodes_at`, at the moment of the call;
    /// reports that moment beside the new arrivals.
    pub fn integrate_fetched_episodes(&mut self, episodes: Vec<Episode>) -> (r: (
        Vec<Episode>,
        i64,
    ))
        requires
            old(self).wf(),
        ensures
            final(self).wf(),
            final(self)@.version == old(self)@.version,
            episode_views(r.0@) == newly_arrived(
                old(self)@,
                episode_views(episodes@),
                r.1 as int,
            ),
            forall|i: int| 0 <= i < r.0@.len() ==> aired_by(#[trigger] r.0@[i]@, r.1 as int),
    {
        let now = now_unix_timestamp();
        let fresh = self.integrate_fetched_episodes_at(episodes, now);
        (fresh, now)
    }
}

/// The episodes the reconciler holds against the store: aired and still
/// ahead of the pointer.
pub open spec fn newly_arrived_input(
    pre: UserDataView,
    fetched: Seq<EpisodeView>,
    now: int,
) -> Seq<EpisodeView> {
    fetched.filter(|e: EpisodeView| aired_by(e, now)).filter(
        |e: EpisodeView| beyond_pointer(pre.subscribed_shows, e),
    )
}

} // verus!
