use vstd::prelude::*;

verus! {

/// What can stop a check before a verdict is reached.
#[derive(Debug, Clone, PartialEq, Eq)]
pub enum KnockError {
    /// A device list holds a token that is not a device number.
    InvalidDevice(String),
    /// A device list names a device that the host does not have.
    DeviceOutOfRange(u32),
    /// A selection names an index past the end of the visible devices.
    IndexOutOfRange(u32),
    /// More devices were requested for auto-selection than are checked.
    TooManyRequested { requested: usize, visible: usize },
    /// Fewer devices are left than the run requires.
    NotEnoughDevices { available: usize, required: usize },
    /// The telemetry source could not be started (no driver, no permission).
    TelemetrySource,
    /// The run requires a GPU, but the telemetry source cannot be started.
    GpuRequired,
    /// The telemetry of one device could not be read.
    TelemetryQuery(u32),
}


/// The character of a decimal digit.
pub open spec fn digit_char(d: nat) -> char {
    if d == 0 {
        '0'
    } else if d == 1 {
        '1'
    } else if d == 2 {
        '2'
    } else if d == 3 {
        '3'
    } else if d == 4 {
        '4'
    } else if d == 5 {
        '5'
    } else if d == 6 {
        '6'
    } else if d == 7 {
        '7'
    } else if d == 8 {
        '8'
    } else {
        '9'
    }
}

/// A number in decimal, with no sign and no leading zeros.
pub open spec fn decimal_text(n: nat) -> Seq<char>
    decreases n,
{
    if n < 10 {
        seq![digit_char(n)]
    } else {
        decimal_text(n / 10).push(digit_char(n % 10))
    }
}

/// The text of one decimal digit.
fn digit_str(d: u64) -> (r: &'static str)
    requires
        d < 10,
    ensures
        r@ == seq![digit_char(d as nat)],
{
    proof {
        reveal_strlit("0");
        reveal_strlit("1");
        reveal_strlit("2");
        reveal_strlit("3");
        reveal_strlit("4");
        reveal_strlit("5");
        reveal_strlit("6");
        reveal_strlit("7");
        reveal_strlit("8");
        reveal_strlit("9");
    }
    let r = if d == 0 {
        "0"
    } else if d == 1 {
        "1"
    } else if d == 2 {
        "2"
    } else if d == 3 {
        "3"
    } else if d == 4 {
        "4"
    } else if d == 5 {
        "5"
    } else if d == 6 {
        "6"
    } else if d == 7 {
        "7"
    } else if d == 8 {
        "8"
    } else {
        "9"
    };
    assert(r@ =~= seq![digit_char(d as nat)]);
    r
}

/// Appends `n` in decimal to `out`.
fn append_decimal(out: &mut String, n: u64)
    ensures
        final(out)@ == old(out)@ + decimal_text(n as nat),
    decreases n,
{
    if n >= 10 {
        append_decimal(out, n / 10);
    }
    let ghost mid = out@;
    out.append(digit_str(n % 10));
    proof {
        if n >= 10 {
            assert(mid + seq![digit_char((n % 10) as nat)] =~= old(out)@ + decimal_text(
                (n / 10) as nat,
            ).push(digit_char((n % 10) as nat)));
        } else {
            assert(n % 10 == n);
        }
    }
}

/// A number in decimal, with no sign and no leading zeros.
pub(crate) fn decimal_string(v: u64) -> (r: String)
    ensures
        r@ == decimal_text(v as nat),
{
    let mut out = String::new();
    append_decimal(&mut out, v);
    assert(out@ =~= decimal_text(v as nat));
    out
}

/// The text that reports `e` to a person.
pub open spec fn message_text(e: KnockError) -> Seq<char> {
    match e {
        KnockError::InvalidDevice(text) => "Invalid device number: "@ + text@,
        KnockError::DeviceOutOfRange(v) => "Device number "@ + decimal_text(v as nat)
            + " is out of range"@,
        KnockError::IndexOutOfRange(i) => "Index "@ + decimal_text(i as nat) + " is out of range."@,
        KnockError::TooManyRequested { requested, visible } =>
            "The number of requested GPUs is greater than the number of visible devices.\nVisible devices: "@
            + decimal_text(visible as nat) + "\nThe number of GPUs you requested: "@
            + decimal_text(requested as nat),
        KnockError::NotEnoughDevices { available, required } => "You are trying to use "@
            + decimal_text(available as nat) + " GPU(s), but at least "@ + decimal_text(
            required as nat,
        ) + " GPU(s) are required."@,
        KnockError::TelemetrySource =>
            "Failed to initialize NVML. Probably no NVIDIA GPU is installed."@,
        KnockError::GpuRequired =>
            "CUDA is not available, but you are trying to use GPU strictly."@,
        KnockError::TelemetryQuery(id) => "Failed to get device by index "@ + decimal_text(
            id as nat,
        ),
    }
}

impl KnockError {
    /// The text that reports this error to a person.
    pub fn message(&self) -> (r: String)
        ensures
            r@ == message_text(*self),
    {
        match self {
            KnockError::InvalidDevice(text) => {
                let mut m = String::from_str("Invalid device number: ");
                m.append(text.as_str());
                m
            },
            KnockError::DeviceOutOfRange(v) => {
                let mut m = String::from_str("Device number ");
                m.append(decimal_string(*v as u64).as_str());
                m.append(" is out of range");
                m
            },
            KnockError::IndexOutOfRange(i) => {
                let mut m = String::from_str("Index ");
                m.append(decimal_string(*i as u64).as_str());
                m.append(" is out of range.");
                m
            },
            KnockError::TooManyRequested { requested, visible } => {
                let mut m = String::from_str(
                    "The number of requested GPUs is greater than the number of visible devices.\nVisible devices: ",
                );
                m.append(decimal_string(*visible as u64).as_str());
                m.append("\nThe number of GPUs you requested: ");
                m.append(decimal_string(*requested as u64).as_str());
                m
            },
            KnockError::NotEnoughDevices { available, required } => {
                let mut m = String::from_str("You are trying to use ");
                m.append(decimal_string(*available as u64).as_str());
                m.append(" GPU(s), but at least ");
                m.append(decimal_string(*required as u64).as_str());
                m.append(" GPU(s) are required.");
                m
            },
            KnockError::TelemetrySource => String::from_str(
                "Failed to initialize NVML. Probably no NVIDIA GPU is installed.",
            ),
            KnockError::GpuRequired => String::from_str(
                "CUDA is not available, but you are trying to use GPU strictly.",
            ),
            KnockError::TelemetryQuery(id) => {
                let mut m = String::from_str("Failed to get device by index ");
                m.append(decimal_string(*id as u64).as_str());
                m
            },
        }
    }
}

} // verus!
