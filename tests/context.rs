use hieroglyph::{
    font_load_order, DrawSettings, DrawingContextBuilder, FontOrder, MetricsCache, TreeCache,
    DEFAULT_FONT_SIZE_BITS, DEFAULT_LINE_HEIGHT_BITS,
};

#[test]
fn default_builder_loads_sans_first() {
    let collection = DrawingContextBuilder::default().into_collection(
        vec![vec![1]],
        vec![vec![2]],
        vec![vec![3]],
    );
    assert_eq!(collection.fonts, vec![vec![1], vec![2], vec![3]]);
    assert_eq!(collection.locale, "en");
}

#[test]
fn builder_settings_are_kept() {
    let collection = DrawingContextBuilder::default()
        .font_order(FontOrder::SerifFirst)
        .pre_fonts(vec![vec![9], vec![8]])
        .locale("de")
        .into_collection(vec![vec![1]], vec![vec![2]], vec![vec![3]]);
    assert_eq!(
        collection.fonts,
        vec![vec![9], vec![8], vec![2], vec![1], vec![3]]
    );
    assert_eq!(collection.locale, "de");
}

#[test]
fn load_order_follows_font_order() {
    assert_eq!(
        font_load_order(FontOrder::SansFirst, vec![0], vec![1, 2], vec![3], vec![4]),
        vec![0, 1, 2, 3, 4]
    );
    assert_eq!(
        font_load_order(FontOrder::SerifFirst, vec![0], vec![1, 2], vec![3], vec![4]),
        vec![0, 3, 1, 2, 4]
    );
    assert_eq!(FontOrder::default(), FontOrder::SansFirst);
}

#[test]
fn settings_defaults_and_changes() {
    let mut settings = DrawSettings::new();
    assert_eq!(settings.font_size, 12.0f32.to_bits());
    assert_eq!(settings.line_height, 50.0f32.to_bits());
    assert_eq!(DEFAULT_FONT_SIZE_BITS, 12.0f32.to_bits());
    assert_eq!(DEFAULT_LINE_HEIGHT_BITS, 50.0f32.to_bits());
    assert_eq!(settings.color, [0, 0, 0, 255]);
    settings.font_size(18.0f32.to_bits());
    assert_eq!(settings.metrics_key(), (18.0f32.to_bits(), 18.0f32.to_bits()));
    settings.rgba(1, 2, 3, 4);
    assert_eq!(settings.color, [1, 2, 3, 4]);
    settings.rgb(5, 6, 7);
    assert_eq!(settings.color, [5, 6, 7, 255]);
}

#[test]
fn capital_metrics_are_written_once() {
    let mut cache: MetricsCache<(u32, f32)> = MetricsCache::new();
    let key = (18.0f32.to_bits(), 18.0f32.to_bits());
    assert!(cache.get(key).is_none());
    cache.store(key, (13, 14.5));
    assert_eq!(cache.get(key), Some(&(13, 14.5)));
    cache.store(key, (99, 0.0));
    assert_eq!(cache.get(key), Some(&(13, 14.5)));
    let other = (12.0f32.to_bits(), 50.0f32.to_bits());
    cache.store(other, (9, 40.0));
    assert_eq!(cache.get(other), Some(&(9, 40.0)));
    assert_eq!(cache.get(key), Some(&(13, 14.5)));
}

#[test]
fn tree_lookups_give_same_object() {
    let mut cache: TreeCache<String> = TreeCache::new();
    assert!(cache.get("🦆").is_none());
    cache.store("🦆", "duck".to_string());
    cache.store("🦆", "goose".to_string());
    cache.store("🌈", "rainbow".to_string());
    let first = cache.get("🦆").unwrap();
    let second = cache.get("🦆").unwrap();
    assert!(std::ptr::eq(first, second));
    assert_eq!(first, "duck");
    assert_eq!(cache.get("🌈").unwrap(), "rainbow");
}
