use porter::metric::{
    clamp_thresholds, hue, key, luminance, saturation, threshold_upper_boundary, SortBy,
};
use porter::Pixel;

fn px(r: u8, g: u8, b: u8) -> Pixel {
    Pixel { r, g, b, a: 255 }
}

#[test]
fn luminance_of_gray_is_the_channel_value() {
    for v in [0u8, 1, 10, 100, 200, 255] {
        assert_eq!(luminance(&px(v, v, v)), v as u16);
    }
}

#[test]
fn luminance_weights_channels() {
    // (2126 R + 7152 G + 722 B) / 10000, rounded down.
    assert_eq!(luminance(&px(255, 0, 0)), 54);
    assert_eq!(luminance(&px(0, 255, 0)), 182);
    assert_eq!(luminance(&px(0, 0, 255)), 18);
    assert_eq!(luminance(&px(200, 0, 0)), 42);
    assert_eq!(luminance(&px(0, 200, 0)), 143);
    assert_eq!(luminance(&px(0, 0, 200)), 14);
    assert_eq!(luminance(&px(100, 100, 0)), 92);
}

#[test]
fn hue_of_primary_colours() {
    assert_eq!(hue(&px(255, 0, 0)), 0);
    assert_eq!(hue(&px(0, 255, 0)), 120);
    assert_eq!(hue(&px(0, 0, 255)), 240);
    assert_eq!(hue(&px(255, 255, 0)), 60);
    assert_eq!(hue(&px(0, 255, 255)), 180);
    assert_eq!(hue(&px(255, 0, 255)), 300);
}

#[test]
fn hue_truncates_toward_zero() {
    // max = red, green < blue: (360 * 255 - 60 * 128) / 255 = 329.88...
    assert_eq!(hue(&px(255, 0, 128)), 329);
    // max = red, green > blue: 60 * 128 / 255 = 30.11...
    assert_eq!(hue(&px(255, 128, 0)), 30);
}

#[test]
fn hue_stays_below_360() {
    // One step from wrapping: green barely below blue.
    assert_eq!(hue(&px(255, 0, 1)), 359);
}

#[test]
fn saturation_of_pure_hues_is_maximal() {
    // Chroma equals the lightness band: fully saturated regardless of how
    // dark or bright the pure colour is.
    assert_eq!(saturation(&px(255, 0, 0)), 255);
    assert_eq!(saturation(&px(128, 0, 0)), 255);
    assert_eq!(saturation(&px(0, 40, 0)), 255);
}

#[test]
fn saturation_divides_chroma_by_the_lightness_band() {
    // 255 * (max - min) / (max + min) when max + min < 255:
    // 255 * 100 / 200 = 127.5, truncated.
    assert_eq!(saturation(&px(150, 100, 50)), 127);
    // 255 * (max - min) / (510 - max - min) when max + min >= 255:
    // 255 * 100 / 210 = 121.4..., truncated.
    assert_eq!(saturation(&px(200, 100, 150)), 121);
    // A washed-out near-white keeps only a little chroma:
    // 255 * 10 / (510 - 490) = 127.5, truncated.
    assert_eq!(saturation(&px(250, 240, 245)), 127);
}

#[test]
fn gray_pixels_have_zero_hue_and_saturation() {
    // The documented zero-chroma convention: equal channels map to key 0
    // under hue and saturation, a design choice rather than an accident.
    for v in [0u8, 1, 127, 254, 255] {
        assert_eq!(hue(&px(v, v, v)), 0);
        assert_eq!(saturation(&px(v, v, v)), 0);
    }
}

#[test]
fn key_dispatches_on_the_metric() {
    let p = px(255, 128, 0);
    assert_eq!(key(&SortBy::Luminance, &p), luminance(&p));
    assert_eq!(key(&SortBy::Hue, &p), hue(&p));
    assert_eq!(key(&SortBy::Saturation, &p), saturation(&p));
}

#[test]
fn threshold_upper_boundary_per_metric() {
    assert_eq!(threshold_upper_boundary(&SortBy::Luminance), 255);
    assert_eq!(threshold_upper_boundary(&SortBy::Saturation), 255);
    assert_eq!(threshold_upper_boundary(&SortBy::Hue), 360);
}

#[test]
fn clamping_repairs_an_inverted_request() {
    // A request with low > high is a contract violation for the sorter; the
    // boundary clamps it into an ordered pair instead of passing it through.
    let (low, high) = clamp_thresholds(&SortBy::Luminance, 300, 255, 255);
    assert!(low <= high);
    assert_eq!((low, high), (255, 255));
}

#[test]
fn clamping_caps_at_the_metric_domain() {
    // A hue-sized request shrinks when the metric is luminance.
    let (low, high) = clamp_thresholds(&SortBy::Luminance, 0, 360, 360);
    assert_eq!((low, high), (0, 255));
    // Under hue the same request is already in the domain.
    let (low, high) = clamp_thresholds(&SortBy::Hue, 0, 360, 360);
    assert_eq!((low, high), (0, 360));
}
