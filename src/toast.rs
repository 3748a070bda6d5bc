use vstd::prelude::*;

verus! {

/// Where the toast container sits on the screen.
#[derive(Debug, Clone, Copy, PartialEq, Eq, Structural)]
pub enum ToastPosition {
    TopLeft,
    TopCenter,
    TopRight,
    BottomLeft,
    BottomCenter,
    BottomRight,
}

/// The kind of a toast, which decides its styling.
#[derive(Debug, Clone, Copy, PartialEq, Eq, Structural)]
pub enum ToastType {
    Info,
    Warning,
    Error,
    Success,
}

/// The style class of a container position.
pub open spec fn position_class(p: ToastPosition) -> Seq<char> {
    match p {
        ToastPosition::TopLeft => "mtw-toast-top-left"@,
        ToastPosition::TopCenter => "mtw-toast-top-center"@,
        ToastPosition::TopRight => "mtw-toast-top-right"@,
        ToastPosition::BottomLeft => "mtw-toast-bottom-left"@,
        ToastPosition::BottomCenter => "mtw-toast-bottom-center"@,
        ToastPosition::BottomRight => "mtw-toast-bottom-right"@,
    }
}

/// The style class of a toast kind.
pub open spec fn type_class(t: ToastType) -> Seq<char> {
    match t {
        ToastType::Info => "mtw-toast-info"@,
        ToastType::Warning => "mtw-toast-warning"@,
        ToastType::Error => "mtw-toast-error"@,
        ToastType::Success => "mtw-toast-success"@,
    }
}

impl ToastPosition {
    pub fn class_name(&self) -> (r: String)
        ensures
            r@ == position_class(*self),
    {
        match self {
            ToastPosition::TopLeft => "mtw-toast-top-left".to_owned(),
            ToastPosition::TopCenter => "mtw-toast-top-center".to_owned(),
            ToastPosition::TopRight => "mtw-toast-top-right".to_owned(),
            ToastPosition::BottomLeft => "mtw-toast-bottom-left".to_owned(),
            ToastPosition::BottomCenter => "mtw-toast-bottom-center".to_owned(),
            ToastPosition::BottomRight => "mtw-toast-bottom-right".to_owned(),
        }
    }
}

impl ToastType {
    pub fn class_name(&self) -> (r: String)
        ensures
            r@ == type_class(*self),
    {
        match self {
            ToastType::Info => "mtw-toast-info".to_owned(),
            ToastType::Warning => "mtw-toast-warning".to_owned(),
            ToastType::Error => "mtw-toast-error".to_owned(),
            ToastType::Success => "mtw-toast-success".to_owned(),
        }
    }
}

} // verus!
