use lasttree::charts::Chart;
use lasttree::charts::ChartArtist;
use lasttree::charts::Period;
use lasttree::charts::User;

#[test]
fn period_round_trip() {
    for p in [
        Period::Week,
        Period::Month,
        Period::Quarter,
        Period::Half,
        Period::Year,
        Period::Overall,
    ] {
        assert_eq!(Period::try_from(p.as_param()), Ok(p));
    }
}

#[test]
fn period_rejects_unknown_values() {
    assert_eq!(Period::try_from("fortnight"), Err("Invalid: fortnight".to_owned()));
    assert_eq!(Period::default(), Period::Overall);
}

#[test]
fn user_and_chart_carry_their_data() {
    let user = User::new("someone").unwrap();
    assert_eq!(user.username(), "someone");

    let chart = Chart {
        artists: vec![ChartArtist { name: "Loona".to_owned(), playcount: 42, rank: 1 }],
        period: Period::Week,
    };
    assert_eq!(chart.artists.len(), 1);
    assert_eq!(chart.artists[0].rank, 1);
    assert_eq!(chart.period, Period::Week);
}
