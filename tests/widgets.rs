use widgets::dockpanel::SplitOrientation;
use widgets::tabpanel::TabPosition;
use widgets::toast::{ToastPosition, ToastType};

#[test]
fn toast_type_classes() {
    assert_eq!(ToastType::Info.class_name(), "mtw-toast-info");
    assert_eq!(ToastType::Warning.class_name(), "mtw-toast-warning");
    assert_eq!(ToastType::Error.class_name(), "mtw-toast-error");
    assert_eq!(ToastType::Success.class_name(), "mtw-toast-success");
}

#[test]
fn toast_position_classes() {
    assert_eq!(ToastPosition::TopLeft.class_name(), "mtw-toast-top-left");
    assert_eq!(ToastPosition::TopCenter.class_name(), "mtw-toast-top-center");
    assert_eq!(ToastPosition::TopRight.class_name(), "mtw-toast-top-right");
    assert_eq!(ToastPosition::BottomLeft.class_name(), "mtw-toast-bottom-left");
    assert_eq!(ToastPosition::BottomCenter.class_name(), "mtw-toast-bottom-center");
    assert_eq!(ToastPosition::BottomRight.class_name(), "mtw-toast-bottom-right");
}

#[test]
fn tab_insert_index() {
    assert_eq!(TabPosition::Start.insert_index(3), 0);
    assert_eq!(TabPosition::End.insert_index(3), 3);
    assert_eq!(TabPosition::Index(1).insert_index(3), 1);
    assert_eq!(TabPosition::Index(7).insert_index(3), 2);
    assert_eq!(TabPosition::Index(7).insert_index(0), 0);
}

#[test]
fn split_orientation_equality() {
    assert_eq!(SplitOrientation::Horizontal, SplitOrientation::Horizontal);
    assert_ne!(SplitOrientation::Horizontal, SplitOrientation::Vertical);
}
