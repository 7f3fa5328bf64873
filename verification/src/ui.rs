//! The user-interface state machine: the state the window holds and the
//! transition every event drives, separated from the windowing toolkit.
//! The shell performs what an action asks for — opening the file picker,
//! decoding the chosen file — and hands the results back through
//! `set_image`; everything the transition itself decides is verified here.

use crate::image_processing::HandleRgbaComponents;
use vstd::prelude::*;

verus! {

/// An event from the window.
#[derive(Debug, Clone)]
pub enum Message {
    UploadImage,
    MinBrightnessChange(String),
    MaxBrightnessChange(String),
}

/// What the shell must do after a transition.
#[derive(Debug, Clone, Copy, PartialEq, Eq, Structural)]
pub enum UiAction {
    OpenImageDialog,
    Noop,
}

/// The window's state: the path of the picked image, its greyscale
/// conversion, and the raw text of the two brightness bounds.
pub struct UIState {
    pub image_path: String,
    pub handle_rgba_components: HandleRgbaComponents,
    pub min_brightness: String,
    pub max_brightness: String,
}

impl UIState {
    /// Drives one event: an upload request asks the shell to open the
    /// file dialog and changes nothing else; a brightness edit stores the
    /// new text unparsed.
    pub fn update(&mut self, message: Message) -> (a: UiAction)
        ensures
            match message {
                Message::UploadImage => {
                    &&& a == UiAction::OpenImageDialog
                    &&& final(self).image_path == old(self).image_path
                    &&& final(self).min_brightness == old(self).min_brightness
                    &&& final(self).max_brightness == old(self).max_brightness
                    &&& final(self).handle_rgba_components == old(self).handle_rgba_components
                },
                Message::MinBrightnessChange(text) => {
                    &&& a == UiAction::Noop
                    &&& final(self).min_brightness == text
                    &&& final(self).max_brightness == old(self).max_brightness
                    &&& final(self).image_path == old(self).image_path
                    &&& final(self).handle_rgba_components == old(self).handle_rgba_components
                },
                Message::MaxBrightnessChange(text) => {
                    &&& a == UiAction::Noop
                    &&& final(self).max_brightness == text
                    &&& final(self).min_brightness == old(self).min_brightness
                    &&& final(self).image_path == old(self).image_path
                    &&& final(self).handle_rgba_components == old(self).handle_rgba_components
                },
            },
    {
        match message {
            Message::UploadImage => UiAction::OpenImageDialog,
            Message::MinBrightnessChange(text) => {
                self.min_brightness = text;
                UiAction::Noop
            },
            Message::MaxBrightnessChange(text) => {
                self.max_brightness = text;
                UiAction::Noop
            },
        }
    }

    /// Installs the image the shell picked and decoded.
    pub fn set_image(&mut self, path: String, image: HandleRgbaComponents)
        ensures
            final(self).image_path == path,
            final(self).handle_rgba_components == image,
            final(self).min_brightness == old(self).min_brightness,
            final(self).max_brightness == old(self).max_brightness,
    {
        self.image_path = path;
        self.handle_rgba_components = image;
    }
}

} // verus!
