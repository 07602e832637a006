use mission_center::scaling::{
    round_up_to_power_of_two, FillingSettings, RoundingSettings, ScalingSettings,
};
use mission_center::series::{grow_to, record_points, set_datasets, update_data_points, Dataset};

#[test]
fn settings_default_to_fixed_unrounded_filled_to_bottom() {
    assert_eq!(ScalingSettings::default(), ScalingSettings::Fixed);
    assert_eq!(RoundingSettings::default(), RoundingSettings::NoRounding);
    assert_eq!(FillingSettings::default(), FillingSettings::FillToBottom);
}

#[test]
fn power_of_two_rounding() {
    assert_eq!(round_up_to_power_of_two(0), Some(0));
    assert_eq!(round_up_to_power_of_two(1), Some(1));
    assert_eq!(round_up_to_power_of_two(3), Some(4));
    assert_eq!(round_up_to_power_of_two(4), Some(4));
    assert_eq!(round_up_to_power_of_two(1000), Some(1024));
    assert_eq!(round_up_to_power_of_two(1 << 32), Some(1 << 32));
    assert_eq!(round_up_to_power_of_two(u64::MAX), None);
}

fn template() -> Dataset<f32> {
    let axis: Vec<f32> = (0..600).map(|x| x as f32).collect();
    Dataset::empty_like(&Dataset::filled(f32::NAN, axis, 10), f32::NAN, 0.0)
}

#[test]
fn add_data_grows_to_match_the_point_count() {
    let mut datas = vec![template()];
    set_datasets(&mut datas, 0, &template());
    assert_eq!(datas.len(), 1);

    record_points(&mut datas, &vec![7.0; 12], &template(), f32::NAN, 0.0);

    assert_eq!(datas.len(), 12);
    for set in &datas {
        assert_eq!(set.get_data()[0], 7.0);
    }
}

#[test]
fn add_data_keeps_series_it_was_given_no_point_for() {
    let mut datas = vec![template()];
    set_datasets(&mut datas, 4, &template());

    record_points(&mut datas, &vec![1.0, 2.0], &template(), f32::NAN, 0.0);

    assert_eq!(datas.len(), 4);
    assert_eq!(datas[0].get_data()[0], 1.0);
    assert_eq!(datas[1].get_data()[0], 2.0);
    // untouched, still holding what a fresh series is seeded with
    assert_eq!(datas[2].get_data()[0], 0.0);
    assert!(datas[2].get_data()[1..].iter().all(|v| v.is_nan()));
}

#[test]
fn grown_series_share_the_time_axis_of_the_original() {
    let mut datas = vec![template()];
    update_data_points(&mut datas, 42);

    record_points(&mut datas, &vec![1.0; 3], &template(), f32::NAN, 0.0);

    let first = &datas[0];
    for set in &datas[1..] {
        assert_eq!(set.used_data, first.used_data);
        assert_eq!(set.x_points(), first.x_points());
        assert_eq!(set.data().len(), first.data().len());
    }
}

#[test]
fn growing_adds_blank_series_on_the_last_time_axis() {
    let mut datas = vec![template()];
    update_data_points(&mut datas, 42);
    grow_to(&mut datas, 3, &template(), f32::NAN, 0.0);
    assert_eq!(datas.len(), 3);
    for set in &datas[1..] {
        assert_eq!(set.used_data, 42);
        assert_eq!(set.data()[0], 0.0);
        assert!(set.data()[1..].iter().all(|v| v.is_nan()));
    }
}

#[test]
fn a_new_sample_pushes_the_oldest_out() {
    let mut set = Dataset::new_with_data(vec![(0.0f32, 1.0f32), (1.0, 2.0), (2.0, 3.0)]);
    assert_eq!(set.used_data, 0);
    set.push_sample(9.0);
    assert_eq!(set.data(), &vec![9.0, 1.0, 2.0]);
    assert_eq!(set.x_points(), &vec![0.0, 1.0, 2.0]);
    set.update_data_points(2);
    assert_eq!(set.get_data(), vec![9.0, 1.0]);
    set.update_data_points(10);
    assert_eq!(set.get_data(), vec![9.0, 1.0, 2.0]);
}

#[test]
fn a_series_keeps_at_most_the_maximum_of_samples() {
    let pairs: Vec<(f32, f32)> = (0..700).map(|i| (i as f32, (i * 2) as f32)).collect();
    let set = Dataset::new_with_data(pairs);
    assert_eq!(set.data().len(), mission_center::series::MAX_DATA_POINTS);
    assert_eq!(set.x_points().len(), 600);
    assert_eq!(set.data()[599], 1198.0);
    assert_eq!(set.used_data, 0);

    let axis: Vec<f32> = (0..650).map(|x| x as f32).collect();
    let filled = Dataset::filled(1.5f32, axis, 10);
    assert_eq!(filled.data().len(), 600);
    assert_eq!(filled.x_points()[599], 599.0);
}
