use thyme::render::{DrawMode, DummyDrawList, FontHandle, TextureData, TextureHandle};
use thyme::image::{timed_frame_index, ImageHandle};
use thyme::layout::ShowElement;
use thyme::groups::RendGroup;
use thyme::{BuildOptions, Error};

#[test]
fn texture_handles_count_up_from_zero() {
    let first = TextureHandle::default();
    assert_eq!(first.id(), 0);
    let second = first.next();
    assert_eq!(second.id(), 1);
    assert_eq!(second.next().id(), 2);
    assert_ne!(first, second);
}

#[test]
fn font_handles_count_up_from_zero() {
    let first = FontHandle::default();
    assert_eq!(first.id(), 0);
    assert_eq!(first.next().next().id(), 2);
    assert_eq!(DrawMode::Font(first), DrawMode::Font(FontHandle::default()));
    assert_ne!(DrawMode::Font(first), DrawMode::Image(TextureHandle::default()));
}

#[test]
fn texture_data_keeps_handle_and_size() {
    let handle = TextureHandle::default().next();
    let data = TextureData::new(handle, 256, 128);
    assert_eq!(data.handle(), handle);
    assert_eq!(data.handle().id(), 1);
    assert_eq!(data.width(), 256);
    assert_eq!(data.height(), 128);
}

#[test]
fn dummy_draw_list_counts_rects() {
    let mut list = DummyDrawList::new();
    assert_eq!(list.len(), 0);
    list.count_rect();
    list.count_rect();
    assert_eq!(list.len(), 2);
}

#[test]
fn image_handles_are_positions() {
    let h = ImageHandle::new(7);
    assert_eq!(h.id(), 7);
    assert_eq!(h, ImageHandle::new(7));
}

#[test]
fn timed_image_cycles_through_frames() {
    // three frames of 100 ms each
    assert_eq!(timed_frame_index(100, 3, false, 0), 0);
    assert_eq!(timed_frame_index(100, 3, false, 99), 0);
    assert_eq!(timed_frame_index(100, 3, false, 100), 1);
    assert_eq!(timed_frame_index(100, 3, false, 299), 2);
    assert_eq!(timed_frame_index(100, 3, false, 300), 0);
    assert_eq!(timed_frame_index(100, 3, false, 1050), 1);
}

#[test]
fn timed_image_played_once_stays_on_last_frame() {
    assert_eq!(timed_frame_index(100, 3, true, 150), 1);
    assert_eq!(timed_frame_index(100, 3, true, 300), 0);
    assert_eq!(timed_frame_index(100, 3, true, 301), 2);
    assert_eq!(timed_frame_index(100, 3, true, 5000), 2);
}

#[test]
fn show_element_decides_visibility() {
    assert!(!ShowElement::Never.show(true));
    assert!(ShowElement::Always.show(false));
    assert!(ShowElement::Sometimes.show(true));
    assert!(!ShowElement::Sometimes.show(false));
}

#[test]
fn render_groups_keep_their_index() {
    let g = RendGroup::new(4);
    assert_eq!(g.index(), 4);
    assert_eq!(RendGroup::default().index(), 0);
}

#[test]
fn build_options_enable_live_reload_by_default() {
    let options = BuildOptions::default();
    assert!(options.enable_live_reload);
}

#[test]
fn error_messages_name_their_source() {
    let theme = Error::Theme("bad".to_string());
    assert_eq!(theme.message(), "Error creating theme from theme definition: bad");
    let font = Error::FontSource("missing.ttf".to_string());
    assert_eq!(font.message(), "Error reading font source: missing.ttf");
}
