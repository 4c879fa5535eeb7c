//! Profiles of the running server: what is asked for, and how it is answered.

use vstd::prelude::*;
use vstd::string::StringExecFns;

verus! {

/// Seconds of a profile whose request omits them.
pub const DEFAULT_PROFILE_SECONDS: u64 = 10;

/// Seconds of a profile at most.
pub const MAX_PROFILE_SECONDS: u64 = 120;

/// Samples per second of a profile whose request omits them.
pub const DEFAULT_SAMPLE_FREQUENCY: i32 = 99;

/// Samples per second of a profile at most.
pub const MAX_SAMPLE_FREQUENCY: i32 = 1_000;

/// A request for a CPU profile.
#[derive(Debug)]
pub struct CpuProfileQuery {
    pub seconds: Option<u64>,
    pub frequency: Option<i32>,
}

/// How many seconds a profile takes, by what is asked for.
pub open spec fn profile_seconds(seconds: Option<u64>) -> u64 {
    match seconds {
        Some(wanted) => if wanted < 1 {
            1
        } else if wanted > MAX_PROFILE_SECONDS {
            MAX_PROFILE_SECONDS
        } else {
            wanted
        },
        None => DEFAULT_PROFILE_SECONDS,
    }
}

/// How often a profile samples in a second, by what is asked for.
pub open spec fn profile_frequency(frequency: Option<i32>) -> i32 {
    match frequency {
        Some(wanted) => if wanted < 1 {
            1
        } else if wanted > MAX_SAMPLE_FREQUENCY {
            MAX_SAMPLE_FREQUENCY
        } else {
            wanted
        },
        None => DEFAULT_SAMPLE_FREQUENCY,
    }
}

impl CpuProfileQuery {
    /// How long is sampled, and how often: what is asked for, within bounds.
    pub fn bounds(&self) -> (bounds: (u64, i32))
        ensures
            1 <= bounds.0 <= MAX_PROFILE_SECONDS,
            1 <= bounds.1 <= MAX_SAMPLE_FREQUENCY,
            self.seconds is None ==> bounds.0 == DEFAULT_PROFILE_SECONDS,
            self.seconds matches Some(wanted) ==> bounds.0 == (if wanted < 1 {
                1
            } else if wanted > MAX_PROFILE_SECONDS {
                MAX_PROFILE_SECONDS
            } else {
                wanted
            }),
            self.frequency is None ==> bounds.1 == DEFAULT_SAMPLE_FREQUENCY,
            self.frequency matches Some(wanted) ==> bounds.1 == (if wanted < 1 {
                1
            } else if wanted > MAX_SAMPLE_FREQUENCY {
                MAX_SAMPLE_FREQUENCY
            } else {
                wanted
            }),
            bounds.0 == profile_seconds(self.seconds),
            bounds.1 == profile_frequency(self.frequency),
    {
        let seconds: u64 = match self.seconds {
            Some(wanted) => wanted,
            None => DEFAULT_PROFILE_SECONDS,
        };
        let frequency: i32 = match self.frequency {
            Some(wanted) => wanted,
            None => DEFAULT_SAMPLE_FREQUENCY,
        };
        (
            if seconds < 1 {
                1
            } else if seconds > MAX_PROFILE_SECONDS {
                MAX_PROFILE_SECONDS
            } else {
                seconds
            },
            if frequency < 1 {
                1
            } else if frequency > MAX_SAMPLE_FREQUENCY {
                MAX_SAMPLE_FREQUENCY
            } else {
                frequency
            },
        )
    }
}

/// The answer to a request for a profile.
#[derive(Debug)]
pub struct ProfileResponse {
    pub status: u16,
    pub content_type: &'static str,
    pub content_disposition: Option<String>,
    pub body: Vec<u8>,
}

/// Answers with a flame graph, to be shown under this name.
pub fn svg_response(svg: Vec<u8>, filename: &str) -> (response: ProfileResponse)
    ensures
        response.status == 200,
        response.content_type@ == "image/svg+xml"@,
        response.content_disposition matches Some(text) && text@ == "inline; filename=\""@
            + filename@ + "\""@,
        response.body == svg,
{
    let mut disposition = String::new();
    disposition.append("inline; filename=\"");
    disposition.append(filename);
    disposition.append("\"");
    assert(disposition@ =~= "inline; filename=\""@ + filename@ + "\""@);
    ProfileResponse {
        status: 200,
        content_type: "image/svg+xml",
        content_disposition: Some(disposition),
        body: svg,
    }
}

/// Answers that there is no profile, and why.
pub fn error_response(status: u16, message: &str) -> (response: ProfileResponse)
    ensures
        response.status == status,
        response.content_type@ == "text/plain; charset=utf-8"@,
        response.content_disposition is None,
        response.body@ == vstd::utf8::encode_utf8(message@),
{
    ProfileResponse {
        status,
        content_type: "text/plain; charset=utf-8",
        content_disposition: None,
        body: vstd::slice::slice_to_vec(message.as_bytes()),
    }
}

/// A profile takes as long and samples as often as is asked for, between one second
/// and two minutes and between once and a thousand times a second; ten seconds and
/// ninety-nine times where nothing is asked for.
pub proof fn profiles_are_bounded(seconds: u64, frequency: i32)
    ensures
        profile_seconds(None) == 10,
        1 <= seconds <= 120 ==> profile_seconds(Some(seconds)) == seconds,
        seconds == 0 ==> profile_seconds(Some(seconds)) == 1,
        seconds > 120 ==> profile_seconds(Some(seconds)) == 120,
        profile_frequency(None) == 99,
        1 <= frequency <= 1_000 ==> profile_frequency(Some(frequency)) == frequency,
        frequency < 1 ==> profile_frequency(Some(frequency)) == 1,
        frequency > 1_000 ==> profile_frequency(Some(frequency)) == 1_000,
{
}

} // verus!
