use bingers::codec::{encode_document, parse_document};
use bingers::errors::Error;
use bingers::tvmaze_api::{Day, Episode, Network, Schedule, Show, Status};
use bingers::user_data::UserData;

fn sample_show() -> Show {
    Show {
        id: 20263,
        name: "The Orville".to_string(),
        language: Some("English".to_string()),
        network: Some(Network {
            id: 4,
            name: "FOX".to_string(),
        }),
        web_channel: None,
        status: Status::Running,
        runtime: Some(60),
        schedule: Schedule {
            days: vec![Day::Thursday, Day::Sunday],
        },
        last_updated: 1234,
        last_watched_episode: (1, 2),
    }
}

fn bare_show() -> Show {
    Show {
        id: 7480,
        name: "Star Trek: Discovery".to_string(),
        language: None,
        network: None,
        web_channel: Some(Network {
            id: 107,
            name: "CBS All Access".to_string(),
        }),
        status: Status::Ended,
        runtime: None,
        schedule: Schedule { days: vec![] },
        last_updated: 0,
        last_watched_episode: (0, 0),
    }
}

fn sample_episode() -> Episode {
    Episode {
        episode_id: 1201556,
        show_id: 20263,
        name: "Command Performance".to_string(),
        season: 1,
        number: 2,
        airstamp: Some(1_505_606_400),
        runtime: 60,
        watched: false,
    }
}

fn unscheduled_episode() -> Episode {
    Episode {
        episode_id: 15151515,
        show_id: 20263,
        name: "Future Episode".to_string(),
        season: 2,
        number: 1,
        airstamp: None,
        runtime: 60,
        watched: true,
    }
}

fn assert_same_model(a: &UserData, b: &UserData) {
    assert_eq!(a.version(), b.version());
    assert_eq!(a.subscribed_shows().len(), b.subscribed_shows().len());
    for (x, y) in a
        .subscribed_shows()
        .iter()
        .zip(b.subscribed_shows().iter())
    {
        assert_eq!(x.id, y.id);
        assert_eq!(x.name, y.name);
        assert_eq!(x.language, y.language);
        assert_eq!(
            x.network.as_ref().map(|n| (n.id, n.name.clone())),
            y.network.as_ref().map(|n| (n.id, n.name.clone()))
        );
        assert_eq!(
            x.web_channel.as_ref().map(|n| (n.id, n.name.clone())),
            y.web_channel.as_ref().map(|n| (n.id, n.name.clone()))
        );
        assert_eq!(x.status, y.status);
        assert_eq!(x.runtime, y.runtime);
        assert_eq!(x.schedule.days, y.schedule.days);
        assert_eq!(x.last_updated, y.last_updated);
        assert_eq!(x.last_watched_episode, y.last_watched_episode);
    }
    assert_eq!(a.unwatched_episodes().len(), b.unwatched_episodes().len());
    for (x, y) in a
        .unwatched_episodes()
        .iter()
        .zip(b.unwatched_episodes().iter())
    {
        assert_eq!(x.episode_id, y.episode_id);
        assert_eq!(x.show_id, y.show_id);
        assert_eq!(x.name, y.name);
        assert_eq!(x.season, y.season);
        assert_eq!(x.number, y.number);
        assert_eq!(x.airstamp, y.airstamp);
        assert_eq!(x.runtime, y.runtime);
        assert_eq!(x.watched, y.watched);
    }
}

#[test]
fn round_trip_empty_store() {
    let data = UserData::new();
    let text = encode_document(&data);
    let loaded = parse_document(&text).expect("an encoded empty store parses");
    assert_same_model(&data, &loaded);
}

#[test]
fn round_trip_populated_store() {
    let mut data = UserData::new();
    data.add_show(sample_show());
    data.add_show(bare_show());
    data.add_episodes(vec![sample_episode(), unscheduled_episode()]);

    let text = encode_document(&data);
    let loaded = parse_document(&text).expect("an encoded store parses");
    assert_same_model(&data, &loaded);
}

#[test]
fn version_too_new_is_rejected() {
    let data = UserData::from_parts(2, vec![], vec![]);
    let text = encode_document(&data);
    match parse_document(&text) {
        Err(Error::VersionMismatch { expected, actual }) => {
            assert_eq!(1, expected);
            assert_eq!(2, actual);
        }
        other => panic!("expected a version mismatch, got {:?}", other.map(|_| ())),
    }
}

#[test]
fn empty_text_is_malformed() {
    assert_eq!(Err(Error::Malformed), parse_document("").map(|_| ()));
}

#[test]
fn truncated_document_is_malformed() {
    let mut data = UserData::new();
    data.add_show(sample_show());
    let text = encode_document(&data);
    let truncated: String = text.chars().take(text.chars().count() - 5).collect();
    assert_eq!(Err(Error::Malformed), parse_document(&truncated).map(|_| ()));
}

#[test]
fn trailing_garbage_is_malformed() {
    let data = UserData::new();
    let mut text = encode_document(&data);
    text.push('x');
    assert_eq!(Err(Error::Malformed), parse_document(&text).map(|_| ()));
}

#[test]
fn non_digit_version_is_malformed() {
    assert_eq!(
        Err(Error::Malformed),
        parse_document("zzzzzzzz").map(|_| ())
    );
}
