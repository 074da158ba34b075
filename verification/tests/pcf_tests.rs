use pcf::color::{optimize_hex_color, Rgba};
use pcf::decode::{decode_text, render, stored_text};
use pcf::dither::{find_closest_palette_color, floyd_steinberg_dither, Radius};
use pcf::encode::{chunk_text, color_text, encode_text, group_by_key, image_text};
use pcf::image::Image;
use pcf::math::{coords_to_math, expand_math, math_to_vec, optimize_math_str};
use pcf::menu::{checkbox_enabled, initial_menu, menu_step, start_enabled, MenuAction};
use pcf::patterns::remove_dup_patterns;

fn rgba(r: u8, g: u8, b: u8, a: u8) -> Rgba {
    Rgba { r, g, b, a }
}

fn image_of(rows: Vec<Vec<Rgba>>) -> Image {
    let height = rows.len() as u32;
    let width = if rows.is_empty() { 0 } else { rows[0].len() as u32 };
    Image { width, height, rows }
}

fn chars(s: &str) -> String {
    s.to_string()
}

#[test]
fn expand_math_repeats_counted_parts() {
    assert_eq!(expand_math("0+1*3+5"), "0+1+1+1+5");
    assert_eq!(expand_math("7"), "7");
}

#[test]
fn expand_math_edge_cases() {
    // a zero count drops the part; leading `+` are trimmed
    assert_eq!(expand_math("5*0"), "");
    assert_eq!(expand_math("+5"), "5");
    assert_eq!(expand_math("2*0+3"), "3");
    // only the second `*`-field is the count
    assert_eq!(expand_math("1*2*3"), "1+1");
}

#[test]
fn math_to_vec_running_sums() {
    assert_eq!(math_to_vec("0+1+1+1+5"), vec!["0", "1", "2", "3", "8"]);
    assert_eq!(math_to_vec("42"), vec!["42"]);
}

#[test]
fn optimize_math_str_runs() {
    assert_eq!(optimize_math_str(chars("0+1+1+1+5")), "0+1*3+5");
    assert_eq!(optimize_math_str(chars("++3+3")), "3*2");
    assert_eq!(optimize_math_str(chars("4")), "4");
    assert_eq!(optimize_math_str(chars("1+2+1")), "1+2+1");
}

#[test]
fn coords_to_math_writes_deltas() {
    let m: String = coords_to_math(&[2, 3, 4, 5, 9]).into_iter().collect();
    assert_eq!(m, "2+1*3+4");
    let m: String = coords_to_math(&[0, 0, 7]).into_iter().collect();
    assert_eq!(m, "0*2+7");
}

#[test]
fn math_roundtrip_on_concrete_list() {
    let coords = [3u32, 4, 5, 6, 10, 11, 300];
    let m: String = coords_to_math(&coords).into_iter().collect();
    let back = math_to_vec(&expand_math(&m));
    let expected: Vec<String> = coords.iter().map(|c| c.to_string()).collect();
    assert_eq!(back, expected);
}

#[test]
fn optimize_hex_color_drops_opaque_alpha() {
    assert_eq!(optimize_hex_color(chars("#AABBCCFF")), "#AABBCC");
    assert_eq!(optimize_hex_color(chars("#11223344")), "#11223344");
    assert_eq!(optimize_hex_color(chars("#0000FF")), "#0000");
}

#[test]
fn optimize_hex_color_pairs_test() {
    // the pair test compares byte 0 with byte 1
    assert_eq!(optimize_hex_color(chars("##aabbXX")), "##ab");
    assert_eq!(optimize_hex_color(chars("ééé")), "ééé");
}

#[test]
fn color_text_through_hex_color() {
    let t: String = color_text(rgba(0x12, 0xAB, 0x00, 0xFF)).into_iter().collect();
    assert_eq!(t, "#12AB00");
    let t: String = color_text(rgba(1, 2, 3, 4)).into_iter().collect();
    assert_eq!(t, "#01020304");
}

#[test]
fn decode_readme_example() {
    let d = decode_text("1920%1080%#0000FE%").unwrap();
    assert_eq!(d.width, 1920);
    assert_eq!(d.height, 1080);
    assert_eq!(d.background, rgba(0, 0, 0xFE, 0xFF));
    assert!(d.writes.is_empty());
}

#[test]
fn decode_plain_list() {
    let d = decode_text("3%3%#000000%#FF0000[(0,1),(2,2)]").unwrap();
    assert_eq!(d.writes, vec![(0, 1, rgba(255, 0, 0, 255)), (2, 2, rgba(255, 0, 0, 255))]);
    let img = render(&d).unwrap();
    assert_eq!(img.rows[1][0], rgba(255, 0, 0, 255));
    assert_eq!(img.rows[2][2], rgba(255, 0, 0, 255));
    assert_eq!(img.rows[0][0], rgba(0, 0, 0, 255));
}

#[test]
fn decode_dictionary() {
    // rows 0..=1 in columns 1 and 2
    let d = decode_text("4%4%#FFF%#0F0{0+1:1+1}").unwrap();
    let g = rgba(0, 255, 0, 255);
    assert_eq!(d.background, rgba(255, 255, 255, 255));
    assert_eq!(d.writes, vec![(1, 0, g), (2, 0, g), (1, 1, g), (2, 1, g)]);
}

#[test]
fn decode_dictionary_marked_y() {
    let d = decode_text("4%4%#FFF%#0F0{0+1:3}y").unwrap();
    let g = rgba(0, 255, 0, 255);
    assert_eq!(d.writes, vec![(0, 3, g), (1, 3, g)]);
}

#[test]
fn decode_legacy_and_dictionary_letters() {
    // `^` stands for `00`; `a` for the pattern `1+1`
    let d = decode_text("4%4%#FFF%#0F0{0+1:a}_$1+1$a").unwrap();
    let g = rgba(0, 255, 0, 255);
    assert_eq!(d.writes, vec![(1, 0, g), (2, 0, g), (1, 1, g), (2, 1, g)]);
    let d = decode_text("1^%2%#000%").unwrap();
    assert_eq!(d.width, 100);
}

#[test]
fn decode_errors() {
    assert!(decode_text("3%3").is_none());
    assert!(decode_text("x%3%#000%").is_none());
    assert!(decode_text("3%3%#GGG%").is_none());
    assert!(decode_text("3%3%#000%#F00[(0;1)]").is_none());
    assert!(decode_text("3%3%#000%#F00{1:2").is_none());
    assert!(decode_text("3%3%#000%#F00{1:2*x}").is_none());
    // an odd dictionary
    assert!(decode_text("3%3%#000%_$a").is_none());
}

#[test]
fn decode_hex_sign_and_shorthand() {
    let d = decode_text("1%1%#+F+F+F%").unwrap();
    assert_eq!(d.background, rgba(15, 15, 15, 255));
    let d = decode_text("1%1%#ABC8%").unwrap();
    assert_eq!(d.background, rgba(0xAA, 0xBB, 0xCC, 0x88));
}

#[test]
fn render_rejects_outside_pixel() {
    let d = decode_text("2%2%#000%#F00[(2,0)]").unwrap();
    assert!(render(&d).is_none());
}

#[test]
fn stored_text_detects_plain_files() {
    assert_eq!(stored_text(b"1%1%#000%").unwrap(), "1%1%#000%");
    assert!(stored_text(&[0xff, 0x25, 0x23]).is_none());
    assert!(stored_text(b"no markers").is_none());
}

#[test]
fn remove_dup_patterns_replaces_best() {
    let out = remove_dup_patterns(chars("abcd-abcd-abcd-abcd"), 2, 4, false);
    assert_eq!(out, "a-a-a-a_$abcd$a");
    let out = remove_dup_patterns(chars("ab%ab%ab%ab"), 2, 4, false);
    assert_eq!(out, "ab%ab%ab%ab");
}

#[test]
fn pattern_roundtrip_on_concrete_text() {
    let text = "4%4%#FFF%#0F0{0+1+1+1:1+1+1+1}";
    let out = remove_dup_patterns(chars(text), 2, 4, false);
    let d1 = decode_text(text).unwrap();
    let d2 = decode_text(&out).unwrap();
    assert_eq!(d1.writes, d2.writes);
}

#[test]
fn pattern_replace_back_on_concrete_text() {
    let text = "xyz-xyz-xyz-xyz";
    let out = remove_dup_patterns(chars(text), 2, 4, false);
    assert_ne!(out, text);
    let cut = out.find("_$").unwrap();
    let base = &out[..cut];
    let dict = &out[cut + 2..];
    assert!(dict.ends_with("$a"));
    let pattern = &dict[..dict.len() - 2];
    assert!(!pattern.is_empty());
    assert!(!pattern.contains('a') && !pattern.contains('_') && !pattern.contains('$'));
    assert_eq!(base.replace('a', pattern), text);
}

fn sample_image() -> Image {
    let w = rgba(255, 255, 255, 255);
    let r = rgba(255, 0, 0, 255);
    let b = rgba(0, 0, 255, 128);
    image_of(vec![
        vec![w, w, w, w, w],
        vec![w, r, r, w, b],
        vec![w, r, r, w, w],
        vec![w, w, w, b, w],
    ])
}

#[test]
fn image_text_of_sample() {
    let t: String = image_text(&sample_image()).unwrap().into_iter().collect();
    assert_eq!(t, "5%4%#FFFFFF%#FF0000{1*2:1*2}#0000FF80{1:4,3:3}");
}

#[test]
fn chunk_text_prefers_shorter_form() {
    let c = rgba(0, 0, 0, 255);
    let t: String = chunk_text(c, &vec![(0, 0)], 4, 4).unwrap().into_iter().collect();
    assert_eq!(t, "#000000{0:0}");
    let t: String = chunk_text(c, &vec![(4, 1), (3, 3)], 5, 5).unwrap().into_iter().collect();
    // one pixel per column: the dictionary is still the shorter form
    assert_eq!(t, "#000000{1:4,3:3}");
}

#[test]
fn encode_then_decode_gives_image_back() {
    let img = sample_image();
    let text = encode_text(&img).unwrap();
    let d = decode_text(&text).unwrap();
    let back = render(&d).unwrap();
    assert_eq!(back.width, img.width);
    assert_eq!(back.height, img.height);
    assert_eq!(back.rows, img.rows);
}

#[test]
fn encode_empty_image_fails() {
    assert!(encode_text(&image_of(vec![])).is_none());
}

#[test]
fn dither_keeps_uniform_image() {
    let c = rgba(10, 20, 30, 40);
    let mut img = image_of(vec![vec![c; 3]; 3]);
    floyd_steinberg_dither(&mut img, true, true, true, true);
    assert_eq!(img.rows, vec![vec![c; 3]; 3]);
}

#[test]
fn dither_without_neighbours_keeps_image() {
    let img0 = sample_image();
    let mut img = sample_image();
    floyd_steinberg_dither(&mut img, false, false, false, false);
    assert_eq!(img.rows, img0.rows);
}

#[test]
fn dither_takes_closest_neighbour() {
    let a = rgba(0, 0, 0, 255);
    let b = rgba(100, 0, 0, 255);
    let c = rgba(90, 0, 0, 255);
    let img = image_of(vec![vec![a, b, a], vec![a, c, a], vec![a, a, a]]);
    // at (1,1) with the base radius: (0,1) a, (1,0) b, (2,1) a, (1,2) a
    let p = find_closest_palette_color(c, &img, 1, 1, 3, 3, true, false, false, false);
    assert_eq!(p, b);
    // no neighbour: the pixel itself
    let p = find_closest_palette_color(c, &img, 1, 1, 3, 3, false, false, false, false);
    assert_eq!(p, c);
}

#[test]
fn dither_first_pixel_scan() {
    let a = rgba(0, 0, 0, 255);
    let b = rgba(200, 0, 0, 255);
    let mut img = image_of(vec![vec![b, a, a], vec![a, a, a], vec![a, a, a]]);
    floyd_steinberg_dither(&mut img, true, false, false, false);
    assert_eq!(img.rows[0][0], a);
}

#[test]
fn menu_navigation() {
    let s = initial_menu();
    let (s, a) = menu_step(s, false, true, false);
    assert_eq!((s.mode, s.sel, a), (0, 1, MenuAction::Redraw));
    let (s, _) = menu_step(s, false, true, false);
    let (s, _) = menu_step(s, false, true, false);
    assert_eq!(s.sel, 2);
    let (_, a) = menu_step(s, false, false, true);
    assert_eq!(a, MenuAction::Quit);
}

#[test]
fn menu_encode_screen_skips_settings_when_lossless() {
    let s = initial_menu();
    let (s, _) = menu_step(s, false, false, true);
    assert_eq!((s.mode, s.sel), (1, 0));
    let (s, _) = menu_step(s, false, true, false);
    let (s, _) = menu_step(s, false, true, false);
    assert_eq!(s.sel, 3);
    let (s, a) = menu_step(s, false, false, true);
    assert_eq!(a, MenuAction::Convert);
    let (s, _) = menu_step(s, true, false, false);
    assert_eq!(s.sel, 1);
    let (s, _) = menu_step(s, false, false, true);
    assert!(s.selected_lossy);
    let (s, _) = menu_step(s, false, true, false);
    assert_eq!(s.sel, 2);
    let (s, _) = menu_step(s, false, false, true);
    assert_eq!((s.mode, s.sel), (3, 1));
    let (s, _) = menu_step(s, false, false, true);
    assert!(s.base_radius);
}

#[test]
fn optimize_then_expand_gives_items_back() {
    let s = "++7+7+7+1+0+0+";
    let compressed = optimize_math_str(chars(s));
    assert_eq!(compressed, "7*3+1+0*2");
    assert_eq!(expand_math(&compressed), "7+7+7+1+0+0");
}

#[test]
fn stored_color_reads_back() {
    for c in [rgba(0x12, 0xAB, 0x00, 0xFF), rgba(1, 2, 3, 4), rgba(255, 255, 255, 0)] {
        let t: String = color_text(c).into_iter().collect();
        let d = decode_text(&format!("1%1%{t}%")).unwrap();
        assert_eq!(d.background, c);
    }
}

#[test]
fn group_by_key_groups_columns_by_rows() {
    let input: Vec<(u32, Vec<char>)> = vec![
        (3, "0+1".chars().collect()),
        (5, "2".chars().collect()),
        (1, "0+1".chars().collect()),
        (2, "0+1".chars().collect()),
    ];
    let out: Vec<(String, String)> = group_by_key(input)
        .into_iter()
        .map(|(k, v)| (k.into_iter().collect(), v.into_iter().collect()))
        .collect();
    assert_eq!(
        out,
        vec![("0+1".to_string(), "1*3".to_string()), ("2".to_string(), "5".to_string())]
    );
}

#[test]
fn readme_blue_image_encodes_to_its_header() {
    let blue = rgba(0, 0, 0xFE, 0xFF);
    let img = Image { width: 1920, height: 1080, rows: vec![vec![blue; 1920]; 1080] };
    assert_eq!(encode_text(&img).unwrap(), "1920%1080%#0000FE%");
}

#[test]
fn readme_blue_ball_decodes() {
    let text = "1408%1402%#6E92A2%#F1F2D4{306+1*219:966+1*87,218+1*87:614a3,218+1*263:746+1*131,394+1*87:1098a3,218+1*219:702a3,350+1*175:1054a3,262+1*263:878+1*87,218+1*175:658a3}#1E3147{306a3:307a3,965+1*87:1142a3,1097a3:1054a3,1141a3:966+1*87,262a3:351a3,1185a3:439+1*87+352+1*87,394+1*87:219a3,482+1*87:175a3,658+1*218:1230a3,877+1*87:1186a3,350a3:263a3,570+1*306:131a3,1053a3:1098a3,1229a3:527+1*350}#385165{746+1*306:1098a3,1053+1*175:834a3,1141a3:483a3,746+1*130:1186a3,350a3+748a3:351a3,702a3+264+1*175:922a3,350+1*131:307a3,746+1*218:1142a3,262a3+836a3:395a3,702+1*87+176+1*175:966a3,702+1*87+132+1*219:1010a3,1009+1*175:878a3,1141+1*87:527+1*306,394+1*87:263a3,746+1*87+44+1*219:1054a3}#242424{0+1*1401:1406+1}#85B0B5{350a3+265+1*87:1098a3,658a3:1010a3,174a3+353+1*87:834a3,262a3+485+1*350:439a3,482+1*87+45+1*131:1186a3,174a3+265+1*87:658a3,702+1*306:351a3,174a3+221+1*87:570a3,658+1*87:1054a3,746+1*306:395a3,174a3+265+1*131:702+1*87,570+1*87:878a3,614+1*87:922+1*87,658+1*306:307a3,174a3+309+1*87:790a3,174+1*87+133+1*87+353+1*130:527a2,174a3+265a3:614a3,262a3+485+1*262:483a3,658+1*262:219+1*87,658+1*218:175a3,394+1*87+177+1*87:1142a3}#587084{790+1*174+221+1*87:966a3,658+1*350+221+1*87:878a3,658+1*350+89a3+133a3:746a3,658+1*394+221a3:834a3,702+1*262+133a3+133a3:702a3,526+1*219+528a3:527a2,306a3+45+1*87+704+1*131:351a3,702+1*218+177a3+133a3:658a3,1185a3:43a3,482a3+572a3+45+1*131:307a3,218a3+177+1*131+572a3+45+1*87:439a3,746+1*262+221+1*87:922a3,570a3+264+1*87+221+1*87:175a3,570+1*87:1230a3,482a3+528a3+89+1*131:263a3,482+1*87+396+1*87+133+1*87:219a3,306a3+45+1*131+660+1*131:395a3,834a2+309a3:1054a3,570+1*219+484a3:570a3,658+1*218+397a3:614a3,790+1*130+265+1*87:1010a3,1185+1*87:87+1*87,218a3+221+1*175+572+1*87:483a3,614a38+45a3+133a3:790a3}#BAD4CF{262a3+221+1*131:1010a3,306a3:439a3,218a3+265a3:878a3,921a3:219a3,218+1*219:570a3,262a3+221+1*87:966a3,921+1*131:263a3,438a3:702a3,482a3:790a3,262+1*131:527a2,1053+1*87:395a3,306a3+177+1*131:1054a3,482+1*87:834a3,394+1*87:658a3,1009+1*131:351a3,218a3+265+1*87:922a3,306+1*175:614a3,306+1*87:483a3,965+1*131:307a3,570a3:1186a3,482+1*175:1098+1*87}_$+1*4$a";
    let d = decode_text(text).unwrap();
    assert_eq!((d.width, d.height), (1408, 1402));
    assert_eq!(d.background, rgba(0x6E, 0x92, 0xA2, 0xFF));
    let img = render(&d).unwrap();
    assert_eq!(img.rows.len(), 1402);
    assert_eq!(img.rows[0].len(), 1408);
}

#[test]
fn remove_dup_patterns_beyond_seven() {
    let out = remove_dup_patterns(chars("abcdefgh-abcdefgh-abcdefgh-abcdefgh"), 2, 9, false);
    assert_eq!(out, "a-a-a-a_$abcdefgh$a");
}

#[test]
fn expanding_twice_is_expanding_once() {
    let once = expand_math("1*3+2++4*2");
    assert_eq!(once, "1+1+1+2++4+4");
    assert_eq!(expand_math(&once), once);
}

#[test]
fn window_checkboxes_keep_one_option() {
    let only_base = Radius { base_radius: true, diagonal_pixels: false, extra_radius: false, extra_extra_radius: false };
    assert!(!checkbox_enabled(only_base, 0));
    assert!(checkbox_enabled(only_base, 1));
    let two = Radius { base_radius: true, diagonal_pixels: true, extra_radius: false, extra_extra_radius: false };
    assert!(checkbox_enabled(two, 0));
    assert!(checkbox_enabled(two, 3));
    assert!(!start_enabled(""));
    assert!(start_enabled("a.png"));
}
