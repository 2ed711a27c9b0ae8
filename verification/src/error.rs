use vstd::prelude::*;

verus! {

/// Errors never silently repair or discard unsupported input.
#[derive(Debug, Clone, PartialEq)]
pub enum ClothError {
    InvalidMesh(String),
    InvalidParameter(&'static str),
    InvalidHandle,
    InvalidParticle(u32),
    ConflictingTarget(u32),
    DegenerateConstraint,
    NonFiniteState,
    ContactBudgetExceeded { limit: usize },
    External(String),
}

/// Checks a particle index against the number of particles of a cloth and
/// returns it as a `usize` position.
pub fn check_particle(i: u32, particle_count: usize) -> (r: Result<usize, ClothError>)
    ensures
        match r {
            Ok(k) => i < particle_count && k == i,
            Err(e) => i >= particle_count && e == ClothError::InvalidParticle(i),
        },
{
    if (i as usize) >= particle_count {
        Err(ClothError::InvalidParticle(i))
    } else {
        Ok(i as usize)
    }
}

/// Decimal digits of `n`, most significant first, without leading zeros.
pub open spec fn decimal(n: nat) -> Seq<char>
    decreases n,
{
    if n < 10 {
        seq![digit(n)]
    } else {
        decimal(n / 10).push(digit(n % 10))
    }
}

pub open spec fn digit(d: nat) -> char {
    if d == 0 { '0' } else if d == 1 { '1' } else if d == 2 { '2' } else if d == 3 { '3' } else if d == 4 {
        '4'
    } else if d == 5 { '5' } else if d == 6 { '6' } else if d == 7 { '7' } else if d == 8 { '8' } else { '9' }
}

/// The single digit `d` as text.
fn digit_text(d: u64) -> (r: &'static str)
    requires
        d < 10,
    ensures
        r@ == seq![digit(d as nat)],
{
    proof {
        reveal_strlit("0");
        reveal_strlit("1");
        reveal_strlit("2");
        reveal_strlit("3");
        reveal_strlit("4");
        reveal_strlit("5");
        reveal_strlit("6");
        reveal_strlit("7");
        reveal_strlit("8");
        reveal_strlit("9");
    }
    if d == 0 {
        "0"
    } else if d == 1 {
        "1"
    } else if d == 2 {
        "2"
    } else if d == 3 {
        "3"
    } else if d == 4 {
        "4"
    } else if d == 5 {
        "5"
    } else if d == 6 {
        "6"
    } else if d == 7 {
        "7"
    } else if d == 8 {
        "8"
    } else {
        "9"
    }
}

/// The decimal digits of `n`, most significant first, without leading
/// zeros.
fn decimal_string(n: u64) -> (r: String)
    ensures
        r@ == decimal(n as nat),
    decreases n,
{
    if n < 10 {
        digit_text(n).to_owned()
    } else {
        let head = decimal_string(n / 10);
        let r = head.concat(digit_text(n % 10));
        proof {
            assert(r@ =~= decimal((n / 10) as nat).push(digit((n % 10) as nat)));
        }
        r
    }
}

impl ClothError {
    /// The human-readable description of the error.
    pub fn message(&self) -> (r: String)
        ensures
            r@ == match self {
                ClothError::InvalidMesh(s) => "invalid cloth mesh: "@ + s@,
                ClothError::InvalidParameter(s) => "invalid parameter: "@ + s@,
                ClothError::InvalidHandle => "invalid or expired cloth handle"@,
                ClothError::InvalidParticle(i) => "invalid particle index "@ + decimal(*i as nat),
                ClothError::ConflictingTarget(i) => "conflicting targets on particle "@ + decimal(*i as nat),
                ClothError::DegenerateConstraint => "constraint geometry became degenerate"@,
                ClothError::NonFiniteState => "non-finite simulation state; substep not committed"@,
                ClothError::ContactBudgetExceeded { limit } => "contact budget exceeded ("@ + decimal(
                    *limit as nat,
                ) + ")"@,
                ClothError::External(s) => "external contact error: "@ + s@,
            },
    {
        match self {
            ClothError::InvalidMesh(s) => "invalid cloth mesh: ".to_owned().concat(s.as_str()),
            ClothError::InvalidParameter(s) => "invalid parameter: ".to_owned().concat(s),
            ClothError::InvalidHandle => "invalid or expired cloth handle".to_owned(),
            ClothError::InvalidParticle(i) => "invalid particle index ".to_owned().concat(
                decimal_string(*i as u64).as_str(),
            ),
            ClothError::ConflictingTarget(i) => "conflicting targets on particle ".to_owned().concat(
                decimal_string(*i as u64).as_str(),
            ),
            ClothError::DegenerateConstraint => "constraint geometry became degenerate".to_owned(),
            ClothError::NonFiniteState => "non-finite simulation state; substep not committed".to_owned(),
            ClothError::ContactBudgetExceeded { limit } => "contact budget exceeded (".to_owned().concat(
                decimal_string(*limit as u64).as_str(),
            ).concat(")"),
            ClothError::External(s) => "external contact error: ".to_owned().concat(s.as_str()),
        }
    }
}

} // verus!
