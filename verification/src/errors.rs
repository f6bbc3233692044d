//! The errors of the library, each with the message that describes it.
use vstd::prelude::*;
use vstd::string::StringExecFns;

verus! {

/// What went wrong with the window system.
#[derive(Debug, Clone, PartialEq, Eq)]
pub enum PlatformError {
    WindowNotFound,
    MonitorNotFound,
    AccessDenied,
    /// A system call failed, with its message.
    ApiError(String),
}

/// The text `prefix` followed by `detail`.
pub(crate) fn with_detail(prefix: &str, detail: &String) -> (r: String)
    ensures
        r@ == prefix@ + detail@,
{
    let mut s = String::from_str(prefix);
    s.append(detail.as_str());
    s
}

impl PlatformError {
    /// The message that describes the error.
    pub open spec fn message_text(&self) -> Seq<char> {
        match self {
            PlatformError::WindowNotFound => "Window not found"@,
            PlatformError::MonitorNotFound => "Monitor not found"@,
            PlatformError::AccessDenied => "Access denied"@,
            PlatformError::ApiError(m) => "API error: "@ + m@,
        }
    }

    /// The message that describes the error.
    pub fn message(&self) -> (r: String)
        ensures
            r@ == self.message_text(),
    {
        match self {
            PlatformError::WindowNotFound => String::from_str("Window not found"),
            PlatformError::MonitorNotFound => String::from_str("Monitor not found"),
            PlatformError::AccessDenied => String::from_str("Access denied"),
            PlatformError::ApiError(m) => with_detail("API error: ", m),
        }
    }
}

/// What went wrong with the process monitor.
#[derive(Debug, Clone, PartialEq, Eq)]
pub enum MonitorError {
    PlatformError(PlatformError),
    NotStarted,
}

impl MonitorError {
    /// The message that describes the error.
    pub fn message(&self) -> (r: String)
        ensures
            r@ == match self {
                MonitorError::PlatformError(e) => "Platform error: "@ + match e {
                    PlatformError::WindowNotFound => "Window not found"@,
                    PlatformError::MonitorNotFound => "Monitor not found"@,
                    PlatformError::AccessDenied => "Access denied"@,
                    PlatformError::ApiError(m) => "API error: "@ + m@,
                },
                MonitorError::NotStarted => "Monitor not started"@,
            },
    {
        match self {
            MonitorError::PlatformError(e) => {
                let inner = e.message();
                with_detail("Platform error: ", &inner)
            },
            MonitorError::NotStarted => String::from_str("Monitor not started"),
        }
    }
}

/// What went wrong with the online model.
#[derive(Debug, Clone, PartialEq, Eq)]
pub enum OnlineModelError {
    /// The HTTP request failed, with its message.
    RequestError(String),
    /// The API answered with an error, with its message.
    ResponseError(String),
    /// The answer was not the JSON expected, with the parser's message.
    ParseError(String),
    InsufficientData,
}

impl OnlineModelError {
    /// The message that describes the error.
    pub fn message(&self) -> (r: String)
        ensures
            r@ == match self {
                OnlineModelError::RequestError(m) => "HTTP request failed: "@ + m@,
                OnlineModelError::ResponseError(m) => "API response error: "@ + m@,
                OnlineModelError::ParseError(m) => "JSON parse error: "@ + m@,
                OnlineModelError::InsufficientData => "Insufficient data"@,
            },
    {
        match self {
            OnlineModelError::RequestError(m) => with_detail("HTTP request failed: ", m),
            OnlineModelError::ResponseError(m) => with_detail("API response error: ", m),
            OnlineModelError::ParseError(m) => with_detail("JSON parse error: ", m),
            OnlineModelError::InsufficientData => String::from_str("Insufficient data"),
        }
    }
}

/// What went wrong in a command, with the message of the error behind it.
#[derive(Debug, Clone, PartialEq, Eq)]
pub enum CommandError {
    WindowManager(String),
    Monitor(String),
    Database(String),
    Recommendation(String),
}

impl CommandError {
    /// The message that describes the error.
    pub fn message(&self) -> (r: String)
        ensures
            r@ == match self {
                CommandError::WindowManager(m) => "Window manager error: "@ + m@,
                CommandError::Monitor(m) => "Monitor error: "@ + m@,
                CommandError::Database(m) => "Database error: "@ + m@,
                CommandError::Recommendation(m) => "Recommendation error: "@ + m@,
            },
    {
        match self {
            CommandError::WindowManager(m) => with_detail("Window manager error: ", m),
            CommandError::Monitor(m) => with_detail("Monitor error: ", m),
            CommandError::Database(m) => with_detail("Database error: ", m),
            CommandError::Recommendation(m) => with_detail("Recommendation error: ", m),
        }
    }

    /// The command error for a window-system error.
    pub fn from_platform(e: &PlatformError) -> (r: CommandError)
        ensures
            r matches CommandError::WindowManager(m) && m@ == match e {
                PlatformError::WindowNotFound => "Window not found"@,
                PlatformError::MonitorNotFound => "Monitor not found"@,
                PlatformError::AccessDenied => "Access denied"@,
                PlatformError::ApiError(d) => "API error: "@ + d@,
            },
    {
        CommandError::WindowManager(e.message())
    }

    /// The command error for a process-monitor error.
    pub fn from_monitor(e: &MonitorError) -> (r: CommandError)
        ensures
            r matches CommandError::Monitor(m) && m@ == match e {
                MonitorError::PlatformError(p) => "Platform error: "@ + match p {
                    PlatformError::WindowNotFound => "Window not found"@,
                    PlatformError::MonitorNotFound => "Monitor not found"@,
                    PlatformError::AccessDenied => "Access denied"@,
                    PlatformError::ApiError(d) => "API error: "@ + d@,
                },
                MonitorError::NotStarted => "Monitor not started"@,
            },
    {
        CommandError::Monitor(e.message())
    }
}

} // verus!
