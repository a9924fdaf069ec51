use bingers::tvmaze_api::{Day, Episode, Network, Schedule, Show, Status};
use bingers::user_data::UserData;

use chrono::TimeZone;
use chrono::Utc;

fn ts(y: i32, m: u32, d: u32, h: u32, mi: u32, s: u32) -> i64 {
    Utc.with_ymd_and_hms(y, m, d, h, mi, s).unwrap().timestamp()
}

fn star_trek_discovery() -> Show {
    Show {
        id: 7480,
        name: "Star Trek: Discovery".to_string(),
        language: Some("English".to_string()),
        network: None,
        web_channel: Some(Network {
            id: 107,
            name: "CBS All Access".to_string(),
        }),
        status: Status::Running,
        runtime: Some(60),
        schedule: Schedule {
            days: vec![Day::Sunday],
        },
        last_updated: 0,
        last_watched_episode: (0, 0),
    }
}

fn the_orville() -> Show {
    Show {
        id: 20263,
        name: "The Orville".to_string(),
        language: Some("English".to_string()),
        network: Some(Network {
            id: 4,
            name: "FOX".to_string(),
        }),
        web_channel: None,
        status: Status::Running,
        runtime: Some(60),
        schedule: Schedule {
            days: vec![Day::Thursday],
        },
        last_updated: 0,
        last_watched_episode: (0, 0),
    }
}

fn the_orville_ep1() -> Episode {
    Episode {
        episode_id: 1172410,
        show_id: 20263,
        name: "Old Wounds".to_string(),
        season: 1,
        number: 1,
        airstamp: Some(ts(2017, 9, 10, 0, 0, 0)),
        runtime: 60,
        watched: false,
    }
}

fn the_orville_ep2() -> Episode {
    Episode {
        episode_id: 1201556,
        show_id: 20263,
        name: "Command Performance".to_string(),
        season: 1,
        number: 2,
        airstamp: Some(ts(2017, 9, 17, 0, 0, 0)),
        runtime: 60,
        watched: false,
    }
}

fn the_orville_ep3() -> Episode {
    Episode {
        episode_id: 1201557,
        show_id: 20263,
        name: "About a Girl".to_string(),
        season: 1,
        number: 3,
        airstamp: Some(ts(2017, 9, 22, 1, 0, 0)),
        runtime: 60,
        watched: false,
    }
}

fn the_orville_ep4() -> Episode {
    Episode {
        episode_id: 1201558,
        show_id: 20263,
        name: "If the Stars Should Appear".to_string(),
        season: 1,
        number: 4,
        airstamp: Some(ts(2017, 9, 29, 1, 0, 0)),
        runtime: 60,
        watched: false,
    }
}

fn the_orville_season2_ep1() -> Episode {
    Episode {
        episode_id: 15151515,
        show_id: 20263,
        name: "Future Episode".to_string(),
        season: 2,
        number: 1,
        airstamp: Some(ts(2018, 3, 15, 0, 0, 0)),
        runtime: 60,
        watched: false,
    }
}

fn star_trek_discovery_ep1() -> Episode {
    Episode {
        episode_id: 892064,
        show_id: 7480,
        name: "The Vulcan Hello".to_string(),
        season: 1,
        number: 1,
        airstamp: Some(ts(2017, 9, 25, 0, 30, 0)),
        runtime: 60,
        watched: false,
    }
}

#[test]
fn version() {
    let user_data = UserData::new();
    assert_eq!(1, user_data.version());
}

#[test]
fn add_new_show() {
    let mut user_data = UserData::new();
    assert!(user_data.subscribed_shows().is_empty());

    user_data.add_show(star_trek_discovery());
    assert!(user_data.subscribed_shows().contains(&star_trek_discovery()));
}

#[test]
fn do_not_add_already_subscribed_show() {
    let mut user_data = UserData::new();
    user_data.add_show(star_trek_discovery());
    user_data.add_show(the_orville());

    assert!(user_data.subscribed_shows().contains(&star_trek_discovery()));
    assert!(user_data.subscribed_shows().contains(&the_orville()));
    assert_eq!(2, user_data.subscribed_shows().len());

    user_data.add_show(the_orville());
    assert_eq!(2, user_data.subscribed_shows().len());
}

#[test]
fn remove_show() {
    let mut user_data = UserData::new();
    user_data.add_show(star_trek_discovery());
    user_data.add_show(the_orville());

    assert!(user_data.subscribed_shows().contains(&star_trek_discovery()));
    assert!(user_data.subscribed_shows().contains(&the_orville()));

    user_data.remove_show(&star_trek_discovery());

    assert!(!user_data.subscribed_shows().contains(&star_trek_discovery()));
    assert!(user_data.subscribed_shows().contains(&the_orville()));
}

#[test]
fn add_episode() {
    let mut user_data = UserData::new();
    user_data.add_show(the_orville());
    user_data.add_episodes(vec![the_orville_ep1()]);

    assert!(user_data.unwatched_episodes().contains(&the_orville_ep1()));
}

#[test]
fn do_not_add_episode_twice() {
    let mut user_data = UserData::new();
    user_data.add_show(the_orville());
    user_data.add_episodes(vec![the_orville_ep1()]);

    assert!(user_data.unwatched_episodes().contains(&the_orville_ep1()));
    assert_eq!(1, user_data.unwatched_episodes().len());

    user_data.add_episodes(vec![the_orville_ep1()]);
    assert_eq!(1, user_data.unwatched_episodes().len());
}

#[test]
fn remove_episodes_of_a_given_show() {
    let mut user_data = UserData::new();
    user_data.add_show(the_orville());
    user_data.add_show(star_trek_discovery());
    user_data.add_episodes(vec![
        the_orville_ep1(),
        the_orville_ep2(),
        star_trek_discovery_ep1(),
    ]);

    assert!(user_data.unwatched_episodes().contains(&the_orville_ep1()));
    assert!(user_data.unwatched_episodes().contains(&the_orville_ep2()));
    assert!(user_data.unwatched_episodes().contains(&star_trek_discovery_ep1()));
    assert_eq!(3, user_data.unwatched_episodes().len());

    user_data.remove_episodes(&the_orville());

    assert!(user_data.unwatched_episodes().contains(&star_trek_discovery_ep1()));
    assert_eq!(1, user_data.unwatched_episodes().len());
}

#[test]
fn mark_next_episode_as_unwatched() {
    let mut user_data = UserData::new();
    user_data.add_show(the_orville());
    user_data.add_show(star_trek_discovery());
    user_data.add_episodes(vec![
        the_orville_ep1(),
        the_orville_ep2(),
        star_trek_discovery_ep1(),
    ]);
    assert_eq!(3, user_data.unwatched_episodes().len());
    assert_eq!(
        (0, 0),
        user_data.subscribed_shows()[1].last_watched_episode
    );

    assert_eq!(Some((1, 1)), user_data.mark_as_watched(20263, None, None));

    assert!(user_data.unwatched_episodes().contains(&the_orville_ep2()));
    assert_eq!(2, user_data.unwatched_episodes().len());

    assert_eq!(
        (1, 1),
        user_data.subscribed_shows()[1].last_watched_episode
    );

    assert!(!user_data.unwatched_episodes()[0].watched);
    assert!(!user_data.unwatched_episodes()[1].watched);

    assert_eq!(Some((1, 2)), user_data.mark_as_watched(20263, None, None));

    assert!(user_data.unwatched_episodes().contains(&star_trek_discovery_ep1()));
    assert_eq!(1, user_data.unwatched_episodes().len());

    assert_eq!(
        (1, 2),
        user_data.subscribed_shows()[1].last_watched_episode
    );

    assert!(!user_data.unwatched_episodes()[0].watched);

    assert_eq!(None, user_data.mark_as_watched(20263, None, None));

    assert!(!user_data.unwatched_episodes()[0].watched);
    assert_eq!(
        (1, 2),
        user_data.subscribed_shows()[1].last_watched_episode
    );
}

#[test]
fn mark_season_as_unwatched() {
    let mut user_data = UserData::new();
    user_data.add_show(the_orville());
    user_data.add_show(star_trek_discovery());
    user_data.add_episodes(vec![
        the_orville_ep1(),
        the_orville_ep2(),
        star_trek_discovery_ep1(),
    ]);
    assert_eq!(3, user_data.unwatched_episodes().len());
    assert_eq!(
        (0, 0),
        user_data.subscribed_shows()[1].last_watched_episode
    );

    assert_eq!(
        Some((1, 2)),
        user_data.mark_as_watched(20263, Some(1), None)
    );

    assert!(user_data.unwatched_episodes().contains(&star_trek_discovery_ep1()));
    assert_eq!(1, user_data.unwatched_episodes().len());

    assert!(!user_data.unwatched_episodes()[0].watched);
    assert_eq!(
        (1, 2),
        user_data.subscribed_shows()[1].last_watched_episode
    );

    assert_eq!(None, user_data.mark_as_watched(20263, Some(1), None));

    assert!(user_data.unwatched_episodes().contains(&star_trek_discovery_ep1()));
    assert_eq!(1, user_data.unwatched_episodes().len());

    assert!(!user_data.unwatched_episodes()[0].watched);
    assert_eq!(
        (1, 2),
        user_data.subscribed_shows()[1].last_watched_episode
    );

    assert_eq!(None, user_data.mark_as_watched(20263, Some(2), None));

    assert!(!user_data.unwatched_episodes()[0].watched);
    assert_eq!(1, user_data.unwatched_episodes().len());
    assert_eq!(
        (1, 2),
        user_data.subscribed_shows()[1].last_watched_episode
    );
}

#[test]
fn mark_season_as_unwatched_with_gap() {
    let mut user_data = UserData::new();
    user_data.add_show(the_orville());
    user_data.add_show(star_trek_discovery());
    user_data.add_episodes(vec![
        the_orville_ep1(),
        the_orville_ep2(),
        the_orville_season2_ep1(),
        star_trek_discovery_ep1(),
    ]);
    assert_eq!(4, user_data.unwatched_episodes().len());
    assert_eq!(
        (0, 0),
        user_data.subscribed_shows()[1].last_watched_episode
    );

    assert_eq!(
        Some((2, 1)),
        user_data.mark_as_watched(20263, Some(2), None)
    );

    assert!(!user_data.unwatched_episodes()[0].watched);
    assert!(!user_data.unwatched_episodes()[1].watched);
    assert!(!user_data.unwatched_episodes()[2].watched);
    assert!(user_data.unwatched_episodes()[3].watched);
    assert_eq!(
        (0, 0),
        user_data.subscribed_shows()[1].last_watched_episode
    );

    assert_eq!(None, user_data.mark_as_watched(20263, Some(2), None));

    assert!(!user_data.unwatched_episodes()[0].watched);
    assert!(!user_data.unwatched_episodes()[1].watched);
    assert!(!user_data.unwatched_episodes()[2].watched);
    assert!(user_data.unwatched_episodes()[3].watched);
    assert_eq!(
        (0, 0),
        user_data.subscribed_shows()[1].last_watched_episode
    );

    assert_eq!(None, user_data.mark_as_watched(20263, Some(3), None));

    assert!(!user_data.unwatched_episodes()[0].watched);
    assert!(!user_data.unwatched_episodes()[1].watched);
    assert!(!user_data.unwatched_episodes()[2].watched);
    assert!(user_data.unwatched_episodes()[3].watched);
    assert_eq!(
        (0, 0),
        user_data.subscribed_shows()[1].last_watched_episode
    );
}

#[test]
fn mark_episode_as_unwatched() {
    let mut user_data = UserData::new();
    user_data.add_show(the_orville());
    user_data.add_show(star_trek_discovery());
    user_data.add_episodes(vec![
        the_orville_ep1(),
        the_orville_ep2(),
        star_trek_discovery_ep1(),
    ]);
    assert_eq!(3, user_data.unwatched_episodes().len());
    assert_eq!(
        (0, 0),
        user_data.subscribed_shows()[1].last_watched_episode
    );

    assert_eq!(
        Some((1, 1)),
        user_data.mark_as_watched(20263, Some(1), Some(1))
    );

    assert!(user_data.unwatched_episodes().contains(&the_orville_ep2()));
    assert_eq!(2, user_data.unwatched_episodes().len());

    assert!(!user_data.unwatched_episodes()[0].watched);
    assert!(!user_data.unwatched_episodes()[1].watched);
    assert_eq!(
        (1, 1),
        user_data.subscribed_shows()[1].last_watched_episode
    );

    assert_eq!(
        Some((1, 2)),
        user_data.mark_as_watched(20263, Some(1), Some(2))
    );

    assert!(user_data.unwatched_episodes().contains(&star_trek_discovery_ep1()));
    assert_eq!(1, user_data.unwatched_episodes().len());

    assert!(!user_data.unwatched_episodes()[0].watched);
    assert_eq!(
        (1, 2),
        user_data.subscribed_shows()[1].last_watched_episode
    );

    assert_eq!(None, user_data.mark_as_watched(20263, Some(1), Some(2)));

    assert!(!user_data.unwatched_episodes()[0].watched);
    assert_eq!(1, user_data.unwatched_episodes().len());
    assert_eq!(
        (1, 2),
        user_data.subscribed_shows()[1].last_watched_episode
    );

    assert_eq!(None, user_data.mark_as_watched(20263, Some(1), Some(3)));

    assert!(!user_data.unwatched_episodes()[0].watched);
    assert_eq!(1, user_data.unwatched_episodes().len());
    assert_eq!(
        (1, 2),
        user_data.subscribed_shows()[1].last_watched_episode
    );
}

#[test]
fn mark_episode_as_unwatched_with_gap() {
    let mut user_data = UserData::new();
    user_data.add_show(the_orville());
    user_data.add_show(star_trek_discovery());
    user_data.add_episodes(vec![
        the_orville_ep1(),
        the_orville_ep2(),
        star_trek_discovery_ep1(),
    ]);
    assert_eq!(3, user_data.unwatched_episodes().len());
    assert_eq!(
        (0, 0),
        user_data.subscribed_shows()[1].last_watched_episode
    );

    assert_eq!(
        Some((1, 2)),
        user_data.mark_as_watched(20263, Some(1), Some(2))
    );

    assert!(!user_data.unwatched_episodes()[0].watched);
    assert!(!user_data.unwatched_episodes()[1].watched);
    assert!(user_data.unwatched_episodes()[2].watched);
    assert_eq!(
        (0, 0),
        user_data.subscribed_shows()[1].last_watched_episode
    );

    assert_eq!(None, user_data.mark_as_watched(20263, Some(1), Some(2)));

    assert!(!user_data.unwatched_episodes()[0].watched);
    assert!(!user_data.unwatched_episodes()[1].watched);
    assert!(user_data.unwatched_episodes()[2].watched);
    assert_eq!(
        (0, 0),
        user_data.subscribed_shows()[1].last_watched_episode
    );

    assert_eq!(None, user_data.mark_as_watched(20263, Some(1), Some(3)));

    assert!(!user_data.unwatched_episodes()[0].watched);
    assert!(!user_data.unwatched_episodes()[1].watched);
    assert!(user_data.unwatched_episodes()[2].watched);
    assert_eq!(
        (0, 0),
        user_data.subscribed_shows()[1].last_watched_episode
    );
}

#[test]
fn keep_watched_episodes_after_gap() {
    let mut user_data = UserData::new();
    user_data.add_show(the_orville());
    user_data.add_show(star_trek_discovery());
    user_data.add_episodes(vec![
        the_orville_ep1(),
        the_orville_ep2(),
        the_orville_ep3(),
        the_orville_ep4(),
        star_trek_discovery_ep1(),
    ]);
    assert_eq!(5, user_data.unwatched_episodes().len());
    assert_eq!(
        (0, 0),
        user_data.subscribed_shows()[1].last_watched_episode
    );

    assert_eq!(Some((1, 1)), user_data.mark_as_watched(20263, None, None));
    assert_eq!(
        (1, 1),
        user_data.subscribed_shows()[1].last_watched_episode
    );
    assert_eq!(4, user_data.unwatched_episodes().len());

    assert_eq!(
        Some((1, 4)),
        user_data.mark_as_watched(20263, Some(1), Some(4))
    );
    assert_eq!(
        (1, 1),
        user_data.subscribed_shows()[1].last_watched_episode
    );
    assert_eq!(4, user_data.unwatched_episodes().len());

    assert_eq!(
        Some((1, 2)),
        user_data.mark_as_watched(20263, Some(1), Some(2))
    );
    assert_eq!(
        (1, 2),
        user_data.subscribed_shows()[1].last_watched_episode
    );
    assert!(user_data.unwatched_episodes().contains(&the_orville_ep3()));
    assert!(user_data.unwatched_episodes().contains(&the_orville_ep4()));
    assert!(!user_data.unwatched_episodes()[1].watched);
    assert!(user_data.unwatched_episodes()[2].watched);
    assert_eq!(3, user_data.unwatched_episodes().len());
}

#[test]
fn remove_other_watched_episodes_if_gap_is_eliminated() {
    let mut user_data = UserData::new();
    user_data.add_show(the_orville());
    user_data.add_show(star_trek_discovery());
    user_data.add_episodes(vec![
        the_orville_ep1(),
        the_orville_ep2(),
        the_orville_ep3(),
        star_trek_discovery_ep1(),
    ]);
    assert_eq!(4, user_data.unwatched_episodes().len());
    assert_eq!(
        (0, 0),
        user_data.subscribed_shows()[1].last_watched_episode
    );

    assert_eq!(Some((1, 1)), user_data.mark_as_watched(20263, None, None));
    assert_eq!(
        (1, 1),
        user_data.subscribed_shows()[1].last_watched_episode
    );
    assert_eq!(3, user_data.unwatched_episodes().len());

    assert_eq!(
        Some((1, 3)),
        user_data.mark_as_watched(20263, Some(1), Some(3))
    );
    assert_eq!(
        (1, 1),
        user_data.subscribed_shows()[1].last_watched_episode
    );
    assert_eq!(3, user_data.unwatched_episodes().len());
    assert!(!user_data.unwatched_episodes()[1].watched);
    assert!(user_data.unwatched_episodes()[2].watched);

    assert_eq!(
        Some((1, 2)),
        user_data.mark_as_watched(20263, Some(1), Some(2))
    );
    assert_eq!(
        (1, 3),
        user_data.subscribed_shows()[1].last_watched_episode
    );
    assert_eq!(1, user_data.unwatched_episodes().len());
    assert!(user_data.unwatched_episodes().contains(&star_trek_discovery_ep1()));
}
