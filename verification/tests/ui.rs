use petal::fsm::tab_manager::TabFSM;
use petal::ui::omnibox::{render_omnibox, OmniboxState};
use petal::ui::{clear_rect, draw_char, draw_string, render_tab_bar, CHROME_HEIGHT, OMNIBOX_HEIGHT, TABBAR_HEIGHT};

fn test_font() -> Vec<[u8; 16]> {
    let mut font = vec![[0u8; 16]; 128];
    font['A' as usize][0] = 0b1000_0001;
    font['A' as usize][15] = 0b0001_0000;
    font['?' as usize][3] = 0b0100_0000;
    font['.' as usize][0] = 0b1000_0000;
    font['x' as usize][0] = 0b1000_0000;
    font['+' as usize][0] = 0b1000_0000;
    for c in 32..127 {
        if font[c] == [0u8; 16] {
            font[c][1] = 0b0010_0000;
        }
    }
    font
}

#[test]
fn heights() {
    assert_eq!(TABBAR_HEIGHT, 32);
    assert_eq!(OMNIBOX_HEIGHT, 32);
    assert_eq!(CHROME_HEIGHT, TABBAR_HEIGHT + OMNIBOX_HEIGHT);
}

#[test]
fn clear_rect_fills_rows() {
    let mut buf = vec![0u32; 12];
    clear_rect(&mut buf, 4, 1, 1, 2, 2, 7);
    assert_eq!(buf, vec![0, 0, 0, 0, 0, 7, 7, 0, 0, 7, 7, 0]);
}

#[test]
fn clear_rect_clips_at_buffer_end() {
    let mut buf = vec![0u32; 6];
    clear_rect(&mut buf, 3, 2, 1, 3, 5, 9);
    assert_eq!(buf, vec![0, 0, 0, 0, 0, 9]);
    let mut empty = vec![1u32; 4];
    clear_rect(&mut empty, 2, 0, 0, 0, 2, 5);
    assert_eq!(empty, vec![1, 1, 1, 1]);
}

#[test]
fn draw_char_lights_glyph_bits() {
    let font = test_font();
    let mut buf = vec![0u32; 10 * 20];
    draw_char(&mut buf, 10, 1, 2, 'A', 5, &font);
    assert_eq!(buf[2 * 10 + 1], 5);
    assert_eq!(buf[2 * 10 + 8], 5);
    assert_eq!(buf[2 * 10 + 2], 0);
    assert_eq!(buf[17 * 10 + 4], 5);
    assert_eq!(buf.iter().filter(|&&p| p == 5).count(), 3);
}

#[test]
fn draw_char_uses_question_mark_outside_ascii() {
    let font = test_font();
    let mut buf = vec![0u32; 8 * 16];
    draw_char(&mut buf, 8, 0, 0, 'é', 3, &font);
    assert_eq!(buf[3 * 8 + 1], 3);
    assert_eq!(buf.iter().filter(|&&p| p == 3).count(), 1);
}

#[test]
fn draw_string_cuts_with_dots() {
    let font = test_font();
    let mut buf = vec![0u32; 64 * 16];
    draw_string(&mut buf, 64, 16, 0, "AAAAAA", 2, 24, &font);
    assert_eq!(buf[16], 2);
    assert_eq!(buf[16 + 7], 2);
    assert_eq!(buf[24], 2);
    assert_eq!(buf[31], 2);
    assert_eq!(buf[32], 2);
    assert_eq!(buf[39], 2);
    assert_eq!(buf[40], 0);
    assert_eq!(buf[47], 0);
    assert_eq!(buf.iter().filter(|&&p| p == 2).count(), 6 + 3);
    let mut short = vec![0u32; 64 * 16];
    draw_string(&mut short, 64, 0, 0, "AA", 2, 200, &font);
    assert_eq!(short[0], 2);
    assert_eq!(short[15], 2);
}

#[test]
fn tab_bar_layout() {
    let font = test_font();
    let width = 500usize;
    let mut buf = vec![0u32; width * 32];
    let titles = vec![String::from("A"), String::new()];
    render_tab_bar(&mut buf, width, &titles, 1, &font);
    assert_eq!(buf[5 * width + 100], 0xFF25_2525);
    assert_eq!(buf[5 * width + 300], 0xFF3C_3C3C);
    assert_eq!(buf[0 * width + 300], 0xFF00_7ACC);
    assert_eq!(buf[5 * width + 199], 0xFF00_0000);
    assert_eq!(buf[8 * width + 10], 0xFFD4_D4D4);
    assert_eq!(buf[8 * width + 180], 0xFFAA_AAAA);
    assert_eq!(buf[8 * width + 410], 0xFFD4_D4D4);
    assert_eq!(buf[5 * width + 450], 0xFF1E_1E1E);
    let _ = TabFSM::new();
}

#[test]
fn omnibox_draws_field_and_cursor() {
    let font = test_font();
    let width = 100usize;
    let mut buf = vec![0u32; width * 64];
    let mut st = OmniboxState::new();
    st.focus("Ab");
    st.arrow_right();
    render_omnibox(&mut buf, width, &st, "ignored", &font);
    assert_eq!(buf[33 * width + 5], 0xFF18_1818);
    assert_eq!(buf[38 * width + 12], 0xFF00_0000);
    assert_eq!(buf[40 * width + 15], 0xFFE0_E0E0);
    assert_eq!(buf[41 * width + 31], 0xFFFF_FFFF);
    assert_eq!(buf[41 * width + 32], 0xFFFF_FFFF);
    let mut buf2 = vec![0u32; width * 64];
    let idle = OmniboxState::new();
    render_omnibox(&mut buf2, width, &idle, "A", &font);
    assert_eq!(buf2[38 * width + 12], 0xFF20_2020);
    assert_eq!(buf2[40 * width + 15], 0xFFE0_E0E0);
}

#[test]
fn omnibox_selection_highlight() {
    let font = test_font();
    let width = 100usize;
    let mut buf = vec![0u32; width * 64];
    let mut st = OmniboxState::new();
    st.focus("bb");
    render_omnibox(&mut buf, width, &st, "", &font);
    assert_eq!(buf[39 * width + 15], 0xFF00_55AA);
    assert_eq!(buf[39 * width + 30], 0xFF00_55AA);
    assert_eq!(buf[39 * width + 31], 0xFF00_0000);
}

#[test]
fn draw_string_stays_within_width() {
    let font = test_font();
    let mut buf = vec![0u32; 64 * 16];
    draw_string(&mut buf, 64, 20, 0, "ab", 4, 10, &font);
    assert_eq!(buf[64 + 22], 4);
    assert_eq!(buf.iter().filter(|&&p| p == 4).count(), 1);
    assert_eq!(buf[12], 0);
    let mut dots = vec![0u32; 64 * 16];
    draw_string(&mut dots, 64, 20, 0, "abcd", 4, 20, &font);
    assert_eq!(dots[20], 4);
    assert_eq!(dots[28], 4);
    assert_eq!(dots[64 + 22], 4);
    assert_eq!(dots[64 + 30], 4);
    assert_eq!(dots.iter().filter(|&&p| p == 4).count(), 4);
    for (i, p) in dots.iter().enumerate() {
        if *p != 0 {
            assert!(i % 64 >= 20 && i % 64 < 40);
        }
    }
}

#[test]
fn tab_bar_stays_in_its_rows_and_highlights_the_active_tab() {
    let font = test_font();
    let width = 450usize;
    let mut buf = vec![7u32; width * 40];
    let titles = vec![String::from("A"), String::from("AAAAAAAAAAAAAAAAAAAAAAAAAAAAAA"), String::new()];
    render_tab_bar(&mut buf, width, &titles, 2, &font);
    for i in 32 * width..buf.len() {
        assert_eq!(buf[i], 7);
    }
    for r in 0..2 {
        for c in 400..450 {
            assert_eq!(buf[r * width + c], 0xFF00_7ACC);
        }
        assert_ne!(buf[r * width + 399], 0xFF00_7ACC);
    }
}

#[test]
fn omnibox_stays_in_its_rows_with_background_around_the_field() {
    let font = test_font();
    let width = 120usize;
    let mut buf = vec![7u32; width * 70];
    let mut st = OmniboxState::new();
    st.focus("AAAAAAAAAAAAAAAAAAAAAAAAAAAAAAAAAAAAAAAA");
    st.arrow_right();
    render_omnibox(&mut buf, width, &st, "", &font);
    for i in 0..32 * width {
        assert_eq!(buf[i], 7);
    }
    for i in 64 * width..buf.len() {
        assert_eq!(buf[i], 7);
    }
    for r in 32..64 {
        for c in 0..width {
            if !(38..58).contains(&r) || c < 10 || c >= width - 8 {
                assert_eq!(buf[r * width + c], 0xFF18_1818);
            }
        }
    }
}
