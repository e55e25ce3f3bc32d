//! User configuration consumed by the scheduler, and the window presets.
//!
//! The theme settings and the full settings aggregate carry floating-point
//! fields and live with the shell around the library; only the parts the
//! verified logic reads are modelled here.

use vstd::prelude::*;

use crate::chars::str_eq;

verus! {

/// Window size with a named aspect-ratio preset.
#[derive(Debug)]
pub struct WindowSize {
    pub width: u32,
    pub height: u32,
    pub ratio_preset: String,
}

/// Global hotkey bindings.
#[derive(Debug)]
pub struct HotkeyConfig {
    pub toggle_window: String,
    pub next_word: String,
    pub prev_word: String,
    pub play_pronunciation: String,
    pub pause_learning: String,
}

/// Learning preferences the scheduler reads.
#[derive(Debug)]
pub struct LearningConfig {
    pub daily_goal: u32,
    pub auto_next: bool,
    pub show_pronunciation: bool,
    pub show_examples: bool,
    pub review_mode: String,
    pub difficulty_preference: String,
}

/// Notification preferences.
#[derive(Debug)]
pub struct NotificationConfig {
    pub enable_notifications: bool,
    pub study_reminders: bool,
    pub reminder_interval: u32,
    pub achievement_notifications: bool,
    pub sound_enabled: bool,
}

/// The size a preset name stands for, if it is one of the four presets.
pub open spec fn spec_preset_size(name: Seq<char>) -> Option<(u32, u32)> {
    if name == "phone"@ {
        Some((320u32, 568u32))
    } else if name == "square"@ {
        Some((400u32, 400u32))
    } else if name == "golden"@ {
        Some((400u32, 250u32))
    } else if name == "widescreen"@ {
        Some((480u32, 270u32))
    } else {
        None
    }
}

impl WindowSize {
    /// The four named presets with their sizes.
    pub fn get_preset_sizes() -> (r: Vec<(&'static str, u32, u32)>)
        ensures
            r@.len() == 4,
            r@[0].0@ == "phone"@ && r@[0].1 == 320 && r@[0].2 == 568,
            r@[1].0@ == "square"@ && r@[1].1 == 400 && r@[1].2 == 400,
            r@[2].0@ == "golden"@ && r@[2].1 == 400 && r@[2].2 == 250,
            r@[3].0@ == "widescreen"@ && r@[3].1 == 480 && r@[3].2 == 270,
    {
        let mut r: Vec<(&'static str, u32, u32)> = Vec::new();
        r.push(("phone", 320, 568));
        r.push(("square", 400, 400));
        r.push(("golden", 400, 250));
        r.push(("widescreen", 480, 270));
        r
    }

    /// Applies a named preset; an unknown name changes nothing.
    pub fn apply_preset(&mut self, preset: &str)
        ensures
            match spec_preset_size(preset@) {
                Some(wh) => final(self).width == wh.0 && final(self).height == wh.1
                    && final(self).ratio_preset@ == preset@,
                None => *final(self) == *old(self),
            },
    {
        let mut width: u32 = 0;
        let mut height: u32 = 0;
        let mut known = false;
        if str_eq(preset, "phone") {
            width = 320;
            height = 568;
            known = true;
        } else if str_eq(preset, "square") {
            width = 400;
            height = 400;
            known = true;
        } else if str_eq(preset, "golden") {
            width = 400;
            height = 250;
            known = true;
        } else if str_eq(preset, "widescreen") {
            width = 480;
            height = 270;
            known = true;
        }
        if known {
            self.width = width;
            self.height = height;
            self.ratio_preset = preset.to_owned();
        }
    }
}

impl Default for WindowSize {
    fn default() -> (r: Self)
        ensures
            r.width == 320,
            r.height == 568,
            r.ratio_preset@ == "phone"@,
    {
        WindowSize { width: 320, height: 568, ratio_preset: "phone".to_owned() }
    }
}

impl Default for HotkeyConfig {
    fn default() -> (r: Self)
        ensures
            r.toggle_window@ == "CmdOrCtrl+Shift+W"@,
            r.next_word@ == "CmdOrCtrl+Right"@,
            r.prev_word@ == "CmdOrCtrl+Left"@,
            r.play_pronunciation@ == "Space"@,
            r.pause_learning@ == "CmdOrCtrl+P"@,
    {
        HotkeyConfig {
            toggle_window: "CmdOrCtrl+Shift+W".to_owned(),
            next_word: "CmdOrCtrl+Right".to_owned(),
            prev_word: "CmdOrCtrl+Left".to_owned(),
            play_pronunciation: "Space".to_owned(),
            pause_learning: "CmdOrCtrl+P".to_owned(),
        }
    }
}

impl Default for LearningConfig {
    fn default() -> (r: Self)
        ensures
            r.daily_goal == 20,
            r.auto_next,
            r.show_pronunciation,
            r.show_examples,
            r.review_mode@ == "smart"@,
            r.difficulty_preference@ == "mixed"@,
    {
        LearningConfig {
            daily_goal: 20,
            auto_next: true,
            show_pronunciation: true,
            show_examples: true,
            review_mode: "smart".to_owned(),
            difficulty_preference: "mixed".to_owned(),
        }
    }
}

impl Default for NotificationConfig {
    fn default() -> (r: Self)
        ensures
            r.enable_notifications,
            r.study_reminders,
            r.reminder_interval == 60,
            r.achievement_notifications,
            r.sound_enabled,
    {
        NotificationConfig {
            enable_notifications: true,
            study_reminders: true,
            reminder_interval: 60,
            achievement_notifications: true,
            sound_enabled: true,
        }
    }
}

} // verus!
