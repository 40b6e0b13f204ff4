use ns_pixels::bits::{count_ones, lowest_set_bit, nth_set_bit};
use ns_pixels::clusters::ClusterVec;
use ns_pixels::display::{
    axis_for, blend, cluster_color, color_for_service_bit, color_for_type_bit, config, dim,
    draw_global_pulse, draw_per_cluster, draw_trains, pixel_color, publish_clusters,
    publish_snapshot, refresh_clusters, try_take_free_clusters, update_config, ClusterExchange,
    ColorMode, ConfigCell, DisplayConfig, Dot, FrameCounter, VizMode, FADE_MS, SLOT_MS,
};
use ns_pixels::map_mode::MapMode;
use ns_pixels::projection::PixelCoord;
use ns_pixels::registry::Registry;
use ns_pixels::time::{Instant, TICK_HZ};
use ns_pixels::train::{PixelData, ServiceType, TrainType};

#[test]
fn modes_cycle() {
    assert_eq!(VizMode::PerCluster.next(), VizMode::GlobalPulse);
    assert_eq!(VizMode::GlobalPulse.next(), VizMode::PerCluster);
    assert_eq!(ColorMode::ByType.next(), ColorMode::ByService);
    assert_eq!(ColorMode::ByService.next(), ColorMode::ByType);
}

#[test]
fn config_is_kept_and_updated() {
    let mut cell = ConfigCell::new();
    assert_eq!(config(&cell), DisplayConfig::new());
    let next = update_config(&mut cell, |c| DisplayConfig { viz: c.viz.next(), col: c.col });
    assert_eq!(next, DisplayConfig { viz: VizMode::GlobalPulse, col: ColorMode::ByType });
    assert_eq!(config(&cell), next);
}

#[test]
fn bits_are_counted_and_isolated() {
    for m in 0..=255u8 {
        assert_eq!(count_ones(m), m.count_ones());
        assert_eq!(lowest_set_bit(m), m & m.wrapping_neg());
    }
    assert_eq!(nth_set_bit(0b1011_0010, 0), 0b10);
    assert_eq!(nth_set_bit(0b1011_0010, 1), 0b1_0000);
    assert_eq!(nth_set_bit(0b1011_0010, 3), 0b1000_0000);
    assert_eq!(nth_set_bit(0b1011_0010, 4), 0);
}

#[test]
fn colors_of_types_and_services() {
    assert_eq!(color_for_type_bit(TrainType::UNKNOWN_BIT), [10, 10, 10]);
    assert_eq!(color_for_type_bit(TrainType::SNG_BIT), [255, 80, 0]);
    assert_eq!(color_for_type_bit(TrainType::SLT_BIT), [0, 200, 255]);
    assert_eq!(color_for_type_bit(TrainType::FLIRT_BIT), [255, 0, 200]);
    assert_eq!(color_for_type_bit(TrainType::ICM_BIT), [255, 220, 0]);
    assert_eq!(color_for_type_bit(TrainType::DDZ_BIT), [0, 255, 80]);
    assert_eq!(color_for_type_bit(TrainType::VIRM_BIT), [80, 80, 255]);
    assert_eq!(color_for_type_bit(TrainType::ICNG_BIT), [255, 255, 255]);
    assert_eq!(color_for_type_bit(3), [0, 0, 0]);
    assert_eq!(color_for_service_bit(ServiceType::UNKNOWN_BIT), [10, 10, 10]);
    assert_eq!(color_for_service_bit(ServiceType::SPRINTER_BIT), [0, 200, 255]);
    assert_eq!(color_for_service_bit(ServiceType::INTERCITY_BIT), [255, 220, 0]);
    assert_eq!(color_for_service_bit(ServiceType::INTERCITY_DIRECT_BIT), [255, 40, 40]);
    assert_eq!(color_for_service_bit(16), [0, 0, 0]);
}

#[test]
fn blending_and_dimming() {
    assert_eq!(blend([255, 80, 0], [0, 200, 255], 0), [255, 80, 0]);
    assert_eq!(blend([255, 80, 0], [0, 200, 255], 255), [0, 200, 255]);
    assert_eq!(blend([255, 80, 0], [0, 200, 255], 51), [204, 104, 51]);
    assert_eq!(dim([255, 80, 5]), [42, 13, 0]);
}

#[test]
fn clusters_cycle_through_their_members() {
    let axis = axis_for(ColorMode::ByType);
    let both = TrainType::SNG_BIT | TrainType::ICNG_BIT;
    assert_eq!(cluster_color(0, 77, &axis), [0, 0, 0]);
    assert_eq!(cluster_color(TrainType::SNG_BIT, 77, &axis), [255, 80, 0]);
    assert_eq!(cluster_color(both, 0, &axis), [255, 80, 0]);
    assert_eq!(cluster_color(both, SLOT_MS - FADE_MS, &axis), [255, 80, 0]);
    // Half-way through the fade: t is 250 * 255 / 500.
    assert_eq!(cluster_color(both, 1250, &axis), blend([255, 80, 0], [255, 255, 255], 127));
    assert_eq!(cluster_color(both, SLOT_MS, &axis), [255, 255, 255]);
    assert_eq!(cluster_color(both, 2 * SLOT_MS - 1, &axis), blend([255; 3], [255, 80, 0], 254));
    assert_eq!(cluster_color(both, 2 * SLOT_MS, &axis), [255, 80, 0]);
}

#[test]
fn pulse_highlights_the_active_bit() {
    let axis = axis_for(ColorMode::ByService);
    let both = ServiceType::UNKNOWN_BIT | ServiceType::SPRINTER_BIT;
    assert_eq!(pixel_color(0, ServiceType::SPRINTER_BIT, &axis), [0, 0, 0]);
    assert_eq!(pixel_color(both, ServiceType::SPRINTER_BIT, &axis), [0, 200, 255]);
    assert_eq!(pixel_color(both, ServiceType::INTERCITY_BIT, &axis), [1, 1, 1]);
    assert_eq!(axis.active_len(), 3);
    assert_eq!(axis.active(2), ServiceType::INTERCITY_DIRECT_BIT);
    assert_eq!(axis_for(ColorMode::ByType).active_len(), 7);
    assert_eq!(axis_for(ColorMode::ByType).active(0), TrainType::SNG_BIT);
}

fn cell(x: u16, y: u16, types: u8, services: u8) -> PixelData {
    PixelData { coord_key: x * 256 + y, types, services }
}

#[test]
fn frames_have_one_dot_per_pixel() {
    let mut shown = ClusterVec::new();
    shown.push(cell(3, 60, TrainType::SLT_BIT, ServiceType::SPRINTER_BIT)).unwrap();
    shown.push(cell(4, 0, TrainType::SNG_BIT, ServiceType::INTERCITY_BIT)).unwrap();
    let cfg = DisplayConfig { viz: VizMode::PerCluster, col: ColorMode::ByType };
    assert_eq!(
        draw_trains(cfg, &shown, 0),
        vec![Dot { x: 3, y: 60, rgb: [0, 200, 255] }, Dot { x: 4, y: 0, rgb: [255, 80, 0] }]
    );
    let cfg = DisplayConfig { viz: VizMode::GlobalPulse, col: ColorMode::ByService };
    // The first slot highlights sprinters.
    assert_eq!(
        draw_trains(cfg, &shown, 3 * SLOT_MS),
        vec![Dot { x: 3, y: 60, rgb: [0, 200, 255] }, Dot { x: 4, y: 0, rgb: [42, 36, 0] }]
    );
    // In the fade, both pixels are on their way.
    assert_eq!(
        draw_trains(cfg, &shown, 1250),
        vec![
            Dot { x: 3, y: 60, rgb: blend([0, 200, 255], [0, 33, 42], 127) },
            Dot { x: 4, y: 0, rgb: blend([42, 36, 0], [255, 220, 0], 127) },
        ]
    );
    let axis = axis_for(ColorMode::ByType);
    assert_eq!(draw_per_cluster(&[], 5, &axis), vec![]);
    assert_eq!(draw_global_pulse(&[], 5, &axis), vec![]);
}

#[test]
fn snapshots_change_hands() {
    let (mut exchange, mut shown) = ClusterExchange::new();
    refresh_clusters(&mut exchange, &mut shown);
    assert!(shown.is_empty());

    let mut buf = try_take_free_clusters(&mut exchange).unwrap();
    assert!(try_take_free_clusters(&mut exchange).is_none());
    buf.push(cell(1, 1, 2, 1)).unwrap();
    publish_clusters(&mut exchange, buf);
    assert!(try_take_free_clusters(&mut exchange).is_none());
    refresh_clusters(&mut exchange, &mut shown);
    assert_eq!(shown.len(), 1);
    assert!(try_take_free_clusters(&mut exchange).unwrap().is_empty());
}

#[test]
fn snapshots_are_published_when_a_buffer_is_free() {
    let mut reg = Registry::new();
    reg.upsert(1, PixelCoord { x: 7, y: 14 }, Instant { ticks: 0 });
    let (mut exchange, mut shown) = ClusterExchange::new();
    assert!(publish_snapshot(&mut exchange, &reg, MapMode::Netherlands));
    assert!(!publish_snapshot(&mut exchange, &reg, MapMode::Randstad));
    refresh_clusters(&mut exchange, &mut shown);
    assert_eq!(shown.len(), 1);
    assert_eq!(shown[0].coord_key, 2 * 256 + 4);
    // The Randstad view does not show this train.
    assert!(publish_snapshot(&mut exchange, &reg, MapMode::Randstad));
    refresh_clusters(&mut exchange, &mut shown);
    assert!(shown.is_empty());
}

#[test]
fn frames_are_counted_per_interval() {
    let mut counter = FrameCounter::new(Instant { ticks: 0 });
    assert_eq!(counter.tick(Instant { ticks: 1 }), None);
    assert_eq!(counter.tick(Instant { ticks: 10 * TICK_HZ }), None);
    assert_eq!(counter.tick(Instant { ticks: 10 * TICK_HZ + 1 }), Some(3));
    assert_eq!(counter.tick(Instant { ticks: 10 * TICK_HZ + 2 }), None);
}
