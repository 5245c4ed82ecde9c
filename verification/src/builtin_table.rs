//! The built-in NAIF body name/code table.
//!
//! This is a subset of the NAIF toolkit's built-in table: the barycenters,
//! the Sun, the planets and Pluto, their first-numbered satellites and two
//! spacecraft (HST, JWST), with common aliases.
//! Bodies outside it are unknown to `bodn2c` and `bodc2n` unless a text
//! kernel binds them.
//!
//! Entries are grouped by code; within a group the first name is the
//! canonical spelling that reverse lookups return, the others are aliases.

use vstd::prelude::*;

verus! {

/// The built-in table as a mathematical sequence of (name, code) pairs.
pub open spec fn builtin_table() -> Seq<(&'static str, i32)> {
    seq![
        ("SOLAR SYSTEM BARYCENTER", 0i32),
        ("SSB", 0i32),
        ("SOLAR_SYSTEM_BARYCENTER", 0i32),
        ("MERCURY BARYCENTER", 1i32),
        ("MERCURY_BARYCENTER", 1i32),
        ("VENUS BARYCENTER", 2i32),
        ("VENUS_BARYCENTER", 2i32),
        ("EARTH BARYCENTER", 3i32),
        ("EARTH-MOON BARYCENTER", 3i32),
        ("EARTH MOON BARYCENTER", 3i32),
        ("EMB", 3i32),
        ("EARTH_BARYCENTER", 3i32),
        ("MARS BARYCENTER", 4i32),
        ("MARS_BARYCENTER", 4i32),
        ("JUPITER BARYCENTER", 5i32),
        ("JUPITER_BARYCENTER", 5i32),
        ("SATURN BARYCENTER", 6i32),
        ("SATURN_BARYCENTER", 6i32),
        ("URANUS BARYCENTER", 7i32),
        ("URANUS_BARYCENTER", 7i32),
        ("NEPTUNE BARYCENTER", 8i32),
        ("NEPTUNE_BARYCENTER", 8i32),
        ("PLUTO BARYCENTER", 9i32),
        ("PLUTO_BARYCENTER", 9i32),
        ("SUN", 10i32),
        ("MERCURY", 199i32),
        ("VENUS", 299i32),
        ("EARTH", 399i32),
        ("MOON", 301i32),
        ("MARS", 499i32),
        ("PHOBOS", 401i32),
        ("DEIMOS", 402i32),
        ("JUPITER", 599i32),
        ("IO", 501i32),
        ("EUROPA", 502i32),
        ("GANYMEDE", 503i32),
        ("CALLISTO", 504i32),
        ("AMALTHEA", 505i32),
        ("HIMALIA", 506i32),
        ("ELARA", 507i32),
        ("PASIPHAE", 508i32),
        ("SINOPE", 509i32),
        ("LYSITHEA", 510i32),
        ("CARME", 511i32),
        ("ANANKE", 512i32),
        ("LEDA", 513i32),
        ("THEBE", 514i32),
        ("ADRASTEA", 515i32),
        ("METIS", 516i32),
        ("SATURN", 699i32),
        ("MIMAS", 601i32),
        ("ENCELADUS", 602i32),
        ("TETHYS", 603i32),
        ("DIONE", 604i32),
        ("RHEA", 605i32),
        ("TITAN", 606i32),
        ("HYPERION", 607i32),
        ("IAPETUS", 608i32),
        ("PHOEBE", 609i32),
        ("JANUS", 610i32),
        ("EPIMETHEUS", 611i32),
        ("HELENE", 612i32),
        ("TELESTO", 613i32),
        ("CALYPSO", 614i32),
        ("ATLAS", 615i32),
        ("PROMETHEUS", 616i32),
        ("PANDORA", 617i32),
        ("PAN", 618i32),
        ("URANUS", 799i32),
        ("ARIEL", 701i32),
        ("UMBRIEL", 702i32),
        ("TITANIA", 703i32),
        ("OBERON", 704i32),
        ("MIRANDA", 705i32),
        ("CORDELIA", 706i32),
        ("OPHELIA", 707i32),
        ("BIANCA", 708i32),
        ("CRESSIDA", 709i32),
        ("DESDEMONA", 710i32),
        ("JULIET", 711i32),
        ("PORTIA", 712i32),
        ("ROSALIND", 713i32),
        ("BELINDA", 714i32),
        ("PUCK", 715i32),
        ("NEPTUNE", 899i32),
        ("TRITON", 801i32),
        ("NEREID", 802i32),
        ("NAIAD", 803i32),
        ("THALASSA", 804i32),
        ("DESPINA", 805i32),
        ("GALATEA", 806i32),
        ("LARISSA", 807i32),
        ("PROTEUS", 808i32),
        ("PLUTO", 999i32),
        ("CHARON", 901i32),
        ("NIX", 902i32),
        ("HYDRA", 903i32),
        ("KERBEROS", 904i32),
        ("STYX", 905i32),
        ("HST", -48i32),
        ("HUBBLE SPACE TELESCOPE", -48i32),
        ("JAMES WEBB SPACE TELESCOPE", -170i32),
        ("JWST", -170i32)
    ]
}

/// Read-only view of the built-in (name, code) table, in table order.
pub fn builtin_entries() -> (r: &'static [(&'static str, i32)])
    ensures
        r@ == builtin_table(),
{
    let r: &'static [(&'static str, i32)] = &[
        ("SOLAR SYSTEM BARYCENTER", 0i32),
        ("SSB", 0i32),
        ("SOLAR_SYSTEM_BARYCENTER", 0i32),
        ("MERCURY BARYCENTER", 1i32),
        ("MERCURY_BARYCENTER", 1i32),
        ("VENUS BARYCENTER", 2i32),
        ("VENUS_BARYCENTER", 2i32),
        ("EARTH BARYCENTER", 3i32),
        ("EARTH-MOON BARYCENTER", 3i32),
        ("EARTH MOON BARYCENTER", 3i32),
        ("EMB", 3i32),
        ("EARTH_BARYCENTER", 3i32),
        ("MARS BARYCENTER", 4i32),
        ("MARS_BARYCENTER", 4i32),
        ("JUPITER BARYCENTER", 5i32),
        ("JUPITER_BARYCENTER", 5i32),
        ("SATURN BARYCENTER", 6i32),
        ("SATURN_BARYCENTER", 6i32),
        ("URANUS BARYCENTER", 7i32),
        ("URANUS_BARYCENTER", 7i32),
        ("NEPTUNE BARYCENTER", 8i32),
        ("NEPTUNE_BARYCENTER", 8i32),
        ("PLUTO BARYCENTER", 9i32),
        ("PLUTO_BARYCENTER", 9i32),
        ("SUN", 10i32),
        ("MERCURY", 199i32),
        ("VENUS", 299i32),
        ("EARTH", 399i32),
        ("MOON", 301i32),
        ("MARS", 499i32),
        ("PHOBOS", 401i32),
        ("DEIMOS", 402i32),
        ("JUPITER", 599i32),
        ("IO", 501i32),
        ("EUROPA", 502i32),
        ("GANYMEDE", 503i32),
        ("CALLISTO", 504i32),
        ("AMALTHEA", 505i32),
        ("HIMALIA", 506i32),
        ("ELARA", 507i32),
        ("PASIPHAE", 508i32),
        ("SINOPE", 509i32),
        ("LYSITHEA", 510i32),
        ("CARME", 511i32),
        ("ANANKE", 512i32),
        ("LEDA", 513i32),
        ("THEBE", 514i32),
        ("ADRASTEA", 515i32),
        ("METIS", 516i32),
        ("SATURN", 699i32),
        ("MIMAS", 601i32),
        ("ENCELADUS", 602i32),
        ("TETHYS", 603i32),
        ("DIONE", 604i32),
        ("RHEA", 605i32),
        ("TITAN", 606i32),
        ("HYPERION", 607i32),
        ("IAPETUS", 608i32),
        ("PHOEBE", 609i32),
        ("JANUS", 610i32),
        ("EPIMETHEUS", 611i32),
        ("HELENE", 612i32),
        ("TELESTO", 613i32),
        ("CALYPSO", 614i32),
        ("ATLAS", 615i32),
        ("PROMETHEUS", 616i32),
        ("PANDORA", 617i32),
        ("PAN", 618i32),
        ("URANUS", 799i32),
        ("ARIEL", 701i32),
        ("UMBRIEL", 702i32),
        ("TITANIA", 703i32),
        ("OBERON", 704i32),
        ("MIRANDA", 705i32),
        ("CORDELIA", 706i32),
        ("OPHELIA", 707i32),
        ("BIANCA", 708i32),
        ("CRESSIDA", 709i32),
        ("DESDEMONA", 710i32),
        ("JULIET", 711i32),
        ("PORTIA", 712i32),
        ("ROSALIND", 713i32),
        ("BELINDA", 714i32),
        ("PUCK", 715i32),
        ("NEPTUNE", 899i32),
        ("TRITON", 801i32),
        ("NEREID", 802i32),
        ("NAIAD", 803i32),
        ("THALASSA", 804i32),
        ("DESPINA", 805i32),
        ("GALATEA", 806i32),
        ("LARISSA", 807i32),
        ("PROTEUS", 808i32),
        ("PLUTO", 999i32),
        ("CHARON", 901i32),
        ("NIX", 902i32),
        ("HYDRA", 903i32),
        ("KERBEROS", 904i32),
        ("STYX", 905i32),
        ("HST", -48i32),
        ("HUBBLE SPACE TELESCOPE", -48i32),
        ("JAMES WEBB SPACE TELESCOPE", -170i32),
        ("JWST", -170i32)
    ];
    r
}

} // verus!
