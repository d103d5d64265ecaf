//! User-level configuration: dotted-key access to the few known settings.
//!
//! Loading and saving the configuration file is I/O and lives outside this
//! library; here the configuration is plain data with verified get and set.
use vstd::prelude::*;

verus! {

broadcast use vstd::string::group_string_axioms;

/// The tool's configuration, currently the user-level part alone.
pub struct SmctlConfig {
    pub user: UserConfig,
}

/// User-level settings.
pub struct UserConfig {
    pub editor: Option<String>,
    pub log_level: Option<String>,
    pub no_color: bool,
}

impl Default for UserConfig {
    fn default() -> (r: Self)
        ensures
            r.editor is None,
            r.log_level is None,
            !r.no_color,
    {
        UserConfig { editor: None, log_level: None, no_color: false }
    }
}

impl Default for SmctlConfig {
    fn default() -> (r: Self)
        ensures
            r.user.editor is None,
            r.user.log_level is None,
            !r.user.no_color,
    {
        SmctlConfig { user: UserConfig::default() }
    }
}

/// Errors of `SmctlConfig::set`.
#[derive(Debug)]
pub enum ConfigError {
    /// The dotted key names no known setting.
    UnknownKey { key: String },
    /// The value does not parse for the setting (here: not a boolean).
    InvalidValue { value: String },
}

/// Whether two strings read the same.
pub fn str_eq(a: &str, b: &str) -> (r: bool)
    ensures
        r == (a@ == b@),
{
    let a_owned = a.to_owned();
    let b_owned = b.to_owned();
    a_owned == b_owned
}

impl SmctlConfig {
    /// Read a setting by dotted key: its value for the three known keys
    /// (`no_color` rendered as `true` or `false`), nothing otherwise.
    pub fn get(&self, key: &str) -> (r: Option<String>)
        ensures
            key@ == "user.editor"@ ==> match (r, &self.user.editor) {
                (Some(a), Some(b)) => a@ == b@,
                (None, None) => true,
                _ => false,
            },
            key@ == "user.log_level"@ ==> match (r, &self.user.log_level) {
                (Some(a), Some(b)) => a@ == b@,
                (None, None) => true,
                _ => false,
            },
            key@ == "user.no_color"@ ==> match r {
                Some(v) => v@ == if self.user.no_color {
                    "true"@
                } else {
                    "false"@
                },
                None => false,
            },
            key@ != "user.editor"@ && key@ != "user.log_level"@ && key@ != "user.no_color"@
                ==> r is None,
    {
        proof {
            reveal_strlit("user.editor");
            reveal_strlit("user.log_level");
            reveal_strlit("user.no_color");
            assert("user.editor"@.len() == 11);
            assert("user.log_level"@.len() == 14);
            assert("user.no_color"@.len() == 13);
        }
        if str_eq(key, "user.editor") {
            match &self.user.editor {
                Some(e) => Some(e.clone()),
                None => None,
            }
        } else if str_eq(key, "user.log_level") {
            match &self.user.log_level {
                Some(l) => Some(l.clone()),
                None => None,
            }
        } else if str_eq(key, "user.no_color") {
            if self.user.no_color {
                Some("true".to_owned())
            } else {
                Some("false".to_owned())
            }
        } else {
            None
        }
    }

    /// Write a setting by dotted key. The editor and log level take any
    /// string; `no_color` takes exactly `true` or `false`; any other key is
    /// unknown and leaves the configuration unchanged.
    pub fn set(&mut self, key: &str, value: &str) -> (r: Result<(), ConfigError>)
        ensures
            match r {
                Ok(()) => {
                    &&& (key@ == "user.editor"@ ==> (final(self).user.editor matches Some(e)
                        && e@ == value@) && final(self).user.log_level == old(
                        self,
                    ).user.log_level && final(self).user.no_color == old(self).user.no_color)
                    &&& (key@ == "user.log_level"@ ==> (final(self).user.log_level matches Some(
                        l,
                    ) && l@ == value@) && final(self).user.editor == old(self).user.editor
                        && final(self).user.no_color == old(self).user.no_color)
                    &&& (key@ == "user.no_color"@ ==> (value@ == "true"@ || value@ == "false"@)
                        && final(self).user.no_color == (value@ == "true"@)
                        && final(self).user.editor == old(self).user.editor
                        && final(self).user.log_level == old(self).user.log_level)
                    &&& (key@ == "user.editor"@ || key@ == "user.log_level"@ || key@
                        == "user.no_color"@)
                },
                Err(ConfigError::UnknownKey { key: k }) => {
                    &&& k@ == key@
                    &&& key@ != "user.editor"@ && key@ != "user.log_level"@ && key@
                        != "user.no_color"@
                    &&& *final(self) == *old(self)
                },
                Err(ConfigError::InvalidValue { value: v }) => {
                    &&& v@ == value@
                    &&& key@ == "user.no_color"@ && value@ != "true"@ && value@ != "false"@
                    &&& *final(self) == *old(self)
                },
            },
    {
        proof {
            reveal_strlit("user.editor");
            reveal_strlit("user.log_level");
            reveal_strlit("user.no_color");
            reveal_strlit("true");
            reveal_strlit("false");
            assert("user.editor"@.len() == 11);
            assert("user.log_level"@.len() == 14);
            assert("user.no_color"@.len() == 13);
            assert("true"@.len() == 4);
            assert("false"@.len() == 5);
        }
        if str_eq(key, "user.editor") {
            self.user.editor = Some(value.to_owned());
            Ok(())
        } else if str_eq(key, "user.log_level") {
            self.user.log_level = Some(value.to_owned());
            Ok(())
        } else if str_eq(key, "user.no_color") {
            if str_eq(value, "true") {
                self.user.no_color = true;
                Ok(())
            } else if str_eq(value, "false") {
                self.user.no_color = false;
                Ok(())
            } else {
                Err(ConfigError::InvalidValue { value: value.to_owned() })
            }
        } else {
            Err(ConfigError::UnknownKey { key: key.to_owned() })
        }
    }
}

} // verus!
