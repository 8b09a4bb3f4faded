//! Where sunrise, noon and sunset lie.
use crate::amount::{
    eps, lemma_grow, lemma_grow_both, lemma_powers, lemma_size_product, near, power, size_of,
};
use crate::double::Double;
use crate::light::slack;
use crate::solar::{
    SolarEvents, DAY_MINUTES, MINUTES_PER_DEGREE, NOON_MINUTES, SECONDS_PER_MINUTE,
};
use vstd::arithmetic::power2::*;
use vstd::prelude::*;

verus! {

proof fn lemma_constants()
    ensures
        near(Double { bits: DAY_MINUTES }, 1_440real, 0real),
        near(Double { bits: NOON_MINUTES }, 720real, 0real),
        near(Double { bits: MINUTES_PER_DEGREE }, 4real, 0real),
        near(Double { bits: SECONDS_PER_MINUTE }, 60real, 0real),
{
    lemma2_to64();
    lemma2_to64_rest();
    lemma_powers();
    assert(power(42) == 4_398_046_511_104real);
    assert(power(43) == 8_796_093_022_208real);
    assert(power(50) == 1_125_899_906_842_624real);
    assert(power(47) == 140_737_488_355_328real);
    Double::exact_amount(Double { bits: DAY_MINUTES }, 1033, 1_440real);
    Double::exact_amount(Double { bits: NOON_MINUTES }, 1032, 720real);
    Double::exact_amount(Double { bits: MINUTES_PER_DEGREE }, 1025, 4real);
    Double::exact_amount(Double { bits: SECONDS_PER_MINUTE }, 1028, 60real);
    assert(0real * eps() == 0real);
}

/// Whole minutes are off by at most half a minute.
proof fn lemma_whole(minutes: Double)
    requires
        minutes.finite(),
        size_of(minutes.amount()) <= 1_000_000real,
    ensures
        size_of(crate::solar::whole_minutes(minutes) as real - minutes.amount()) <= 1real / 2real,
{
    Double::amounts(minutes);
    Double::magnitude_amount(minutes);
    assert(!minutes.magnitude().negative());
    Double::rounded_amount(minutes.magnitude());
    let count = minutes.magnitude().rounded();
    assert(count as real <= 1_000_001real);
    assert(count <= 1_000_001);
}

/// Sunrise and sunset lie evenly around noon, four minutes from it for each degree that
/// the sun turns, to the nearest minute.
#[verifier::spinoff_prover]
#[verifier::rlimit(60)]
pub proof fn the_day_lies_evenly_around_noon(noon: Double, degrees: Double)
    requires
        noon.wrapped(Double { bits: DAY_MINUTES }).finite(),
        0real <= noon.wrapped(Double { bits: DAY_MINUTES }).amount() <= 1_440real,
        degrees.finite(),
        0real <= degrees.amount() <= 180real,
    ensures
        ({
            let center = noon.wrapped(Double { bits: DAY_MINUTES }).amount();
            let events = SolarEvents::centered(noon, Some(degrees));
            &&& events.sunrise_minutes matches Some(rise) && size_of(
                rise as real - (center - 4real * degrees.amount()),
            ) <= 1real / 2real + slack()
            &&& events.sunset_minutes matches Some(set) && size_of(
                set as real - (center + 4real * degrees.amount()),
            ) <= 1real / 2real + slack()
            &&& size_of(events.noon_minutes as real - center) <= 1real / 2real || (
            events.noon_minutes == 0 && center >= 1_439real + 1real / 2real)
            &&& SolarEvents::centered(noon, None).sunrise_minutes is None
            &&& SolarEvents::centered(noon, None).sunset_minutes is None
        }),
{
    let middle = noon.wrapped(Double { bits: DAY_MINUTES });
    let half = degrees.product(Double { bits: MINUTES_PER_DEGREE });
    let events = SolarEvents::centered(noon, Some(degrees));
    lemma_around(middle, degrees);
    lemma_middle(middle);
    lemma_centered(noon, degrees);
    lemma_day(crate::solar::whole_minutes(middle) as int, middle.amount());
}

/// What the events are made of.
proof fn lemma_centered(noon: Double, degrees: Double)
    ensures
        ({
            let middle = noon.wrapped(Double { bits: DAY_MINUTES });
            let half = degrees.product(Double { bits: MINUTES_PER_DEGREE });
            let events = SolarEvents::centered(noon, Some(degrees));
            &&& events.sunrise_minutes == Some(
                crate::solar::whole_minutes(middle.difference(half)),
            )
            &&& events.sunset_minutes == Some(crate::solar::whole_minutes(middle.sum(half)))
            &&& events.noon_minutes == (crate::solar::whole_minutes(middle) as int % 1_440) as i32
            &&& SolarEvents::centered(noon, None).sunrise_minutes is None
            &&& SolarEvents::centered(noon, None).sunset_minutes is None
        }),
{
}

/// A minute of the day; the last half minute belongs to the next.
proof fn lemma_day(n: int, center: real)
    requires
        0 <= n <= 1_440,
        size_of(n as real - center) <= 1real / 2real,
    ensures
        ({
            let minute = (n % 1_440) as i32;
            size_of(minute as real - center) <= 1real / 2real || (minute == 0 && center
                >= 1_439real + 1real / 2real)
        }),
{
    if n == 1_440 {
        assert(n as real == 1_440real);
        assert((n % 1_440) == 0);
    } else {
        assert(n % 1_440 == n);
    }
}

proof fn lemma_around(middle: Double, degrees: Double)
    requires
        middle.finite(),
        0real <= middle.amount() <= 1_440real,
        degrees.finite(),
        0real <= degrees.amount() <= 180real,
    ensures
        ({
            let half = degrees.product(Double { bits: MINUTES_PER_DEGREE });
            &&& size_of(
                crate::solar::whole_minutes(middle.difference(half)) as real - (middle.amount()
                    - 4real * degrees.amount()),
            ) <= 1real / 2real + slack()
            &&& size_of(
                crate::solar::whole_minutes(middle.sum(half)) as real - (middle.amount() + 4real
                    * degrees.amount()),
            ) <= 1real / 2real + slack()
        }),
{
    let c = middle.amount();
    let d = degrees.amount();
    let four = Double { bits: MINUTES_PER_DEGREE };
    lemma_constants();
    assert(0real * eps() == 0real);
    assert(near(middle, c, 0real) && near(degrees, d, 0real));
    crate::amount::near_product(degrees, d, 0real, four, 4real, 0real, 180real, 4real);
    assert(d * 4real == 4real * d);
    let half = degrees.product(four);
    assert(near(half, 4real * d, 721real));
    crate::amount::near_difference(middle, c, 0real, half, 4real * d, 721real, 1_440real);
    crate::amount::near_sum(middle, c, 0real, half, 4real * d, 721real, 2_160real);
    crate::light::lemma_few(3_000real);
    lemma_powers();
    lemma_grow(2_162real, 3_000real, eps());
    lemma_grow(2_882real, 3_000real, eps());
    lemma_whole(middle.difference(half));
    lemma_whole(middle.sum(half));
}

proof fn lemma_middle(middle: Double)
    requires
        middle.finite(),
        0real <= middle.amount() <= 1_440real,
    ensures
        0 <= crate::solar::whole_minutes(middle) <= 1_440,
        size_of(crate::solar::whole_minutes(middle) as real - middle.amount()) <= 1real / 2real,
{
    lemma_whole(middle);
    let n = crate::solar::whole_minutes(middle) as int;
    assert(n as real <= 1_440real + 1real / 2real && n as real >= -(1real / 2real));
    assert(0 <= n <= 1_440);
}

/// `minutes` is noon: 720 minutes after midnight, four earlier for each degree to the
/// east and as much as the sun runs ahead, and later by what the zone is ahead.
pub open spec fn noon_lies(longitude: Double, ahead: Double, offset: int, minutes: Double) -> bool {
    longitude.finite() && size_of(longitude.amount()) <= 180real && ahead.finite() && size_of(
        ahead.amount(),
    ) <= 1_000real && -86_400 <= offset <= 86_400 ==> minutes.finite() && size_of(
        minutes.amount() - (720real - 4real * longitude.amount() - ahead.amount() + offset as real
            / 60real),
    ) <= slack()
}

/// A whole number of seconds.
proof fn lemma_seconds(offset: int)
    requires
        -86_400 <= offset <= 86_400,
    ensures
        near(Double::of_int(offset), offset as real, 0real),
{
    let n = if offset < 0 {
        -offset
    } else {
        offset
    };
    let a = Double::of_nat(n as nat);
    let m = n as real;
    Double::counts_are_exact(n as nat);
    lemma_powers();
    lemma_pow2_pos(1074);
    let u = power(1074);
    crate::amount::lemma_real_product(n, pow2(1074) as int);
    assert(a.amount() == m) by {
        Double::amounts(a);
        crate::rates::lemma_cancel(a.amount(), m, u);
    }
    assert(0real * eps() == 0real);
    crate::amount::near_negated(a, m, 0real);
}

/// Noon is where the longitude, the season and the zone put it.
pub proof fn noon_follows_longitude_and_zone(longitude: Double, ahead: Double, offset: int)
    ensures
        noon_lies(
            longitude,
            ahead,
            offset,
            (Double { bits: NOON_MINUTES }).difference(
                (Double { bits: MINUTES_PER_DEGREE }).product(longitude),
            ).difference(ahead).sum(
                Double::of_int(offset).quotient(Double { bits: SECONDS_PER_MINUTE }),
            ),
        ),
{
    if longitude.finite() && size_of(longitude.amount()) <= 180real && ahead.finite() && size_of(
        ahead.amount(),
    ) <= 1_000real && -86_400 <= offset <= 86_400 {
        let l = longitude.amount();
        let a = ahead.amount();
        let o = offset as real;
        let noon = Double { bits: NOON_MINUTES };
        let four = Double { bits: MINUTES_PER_DEGREE };
        let sixty = Double { bits: SECONDS_PER_MINUTE };
        lemma_constants();
        lemma_seconds(offset);
        assert(0real * eps() == 0real);
        crate::light::lemma_small();
        crate::amount::near_product(four, 4real, 0real, longitude, l, 0real, 4real, 180real);
        let east = four.product(longitude);
        crate::amount::near_difference(noon, 720real, 0real, east, 4real * l, 721real, 1_440real);
        let b = noon.difference(east);
        crate::amount::near_difference(b, 720real - 4real * l, 2_162real, ahead, a, 0real, 2_440real);
        let c = b.difference(ahead);
        let seconds = Double::of_int(offset);
        let q = o / 60real;
        assert(size_of(q) <= 1_440real);
        Double::amounts(sixty);
        Double::quotient_amount(seconds, sixty);
        lemma_grow(size_of(q), 1_440real, eps());
        assert(near(seconds.quotient(sixty), q, 1_441real));
        crate::amount::near_sum(
            c,
            720real - 4real * l - a,
            4_603real,
            seconds.quotient(sixty),
            q,
            1_441real,
            3_880real,
        );
        crate::light::lemma_few(10_000real);
        lemma_grow(9_925real, 10_000real, eps());
    }
}

/// `cosine` is that of half the arc on which the sun is up: what the zenith distance
/// needs at this latitude and season, less the more the sun leans to this side.
pub open spec fn day_opens(
    zenith: Double,
    latitude_cosine: Double,
    latitude_tangent: Double,
    season_cosine: Double,
    season_tangent: Double,
    cosine: Double,
) -> bool {
    zenith.finite() && size_of(zenith.amount()) <= 1real && latitude_cosine.finite() && 1real
        / 10real <= latitude_cosine.amount() <= 1real && season_cosine.finite() && 1real / 10real
        <= season_cosine.amount() <= 1real && latitude_tangent.finite() && size_of(
        latitude_tangent.amount(),
    ) <= 10real && season_tangent.finite() && size_of(season_tangent.amount()) <= 10real
        ==> cosine.finite() && size_of(
        (cosine.amount() + latitude_tangent.amount() * season_tangent.amount()) * (
        latitude_cosine.amount() * season_cosine.amount()) - zenith.amount(),
    ) <= slack()
}

/// A quotient by nearly `q`, taken `q` times.
proof fn lemma_back(z: real, p: real, q: real, r: real, d: real)
    requires
        p > 0real,
        size_of(z) <= 1real,
        1real / 1_000real <= p,
        0real <= q <= 1real,
        size_of(p - q) <= d,
        size_of(r - z / p) <= d,
        d >= 0real,
    ensures
        size_of(r * q - z) <= 1_001real * d,
{
    let f = z / p;
    crate::rates::lemma_divided(z, p);
    crate::tints::lemma_shrunk(z, p);
    assert(r * q - z == (r - f) * q - f * (p - q)) by (nonlinear_arith)
        requires
            f * p == z,
    ;
    lemma_size_product(r - f, q);
    lemma_size_product(f, p - q);
    lemma_grow_both(size_of(r - f), d, q, 1real);
    lemma_grow_both(size_of(f), 1_000real, size_of(p - q), d);
}

/// The length of the day comes from the latitude and the season.
pub proof fn days_open_with_latitude_and_season(
    zenith: Double,
    latitude_cosine: Double,
    latitude_tangent: Double,
    season_cosine: Double,
    season_tangent: Double,
)
    ensures
        day_opens(
            zenith,
            latitude_cosine,
            latitude_tangent,
            season_cosine,
            season_tangent,
            zenith.quotient(latitude_cosine.product(season_cosine)).difference(
                latitude_tangent.product(season_tangent),
            ),
        ),
{
    if zenith.finite() && size_of(zenith.amount()) <= 1real && latitude_cosine.finite() && 1real
        / 10real <= latitude_cosine.amount() <= 1real && season_cosine.finite() && 1real / 10real
        <= season_cosine.amount() <= 1real && latitude_tangent.finite() && size_of(
        latitude_tangent.amount(),
    ) <= 10real && season_tangent.finite() && size_of(season_tangent.amount()) <= 10real {
        let (z, e) = (zenith.amount(), eps());
        let (lc, sc) = (latitude_cosine.amount(), season_cosine.amount());
        let (lt, st) = (latitude_tangent.amount(), season_tangent.amount());
        let q = lc * sc;
        crate::light::lemma_small();
        assert(0real * e == 0real);
        crate::amount::near_product(latitude_cosine, lc, 0real, season_cosine, sc, 0real, 1real, 1real);
        let product = latitude_cosine.product(season_cosine);
        let p = product.amount();
        assert(near(product, q, 2real));
        lemma_grow(2real, 1_001real, e);
        lemma_grow_both(lc, 1real, sc, 1real);
        lemma_grow(1real / 10real, lc, sc);
        assert((1real / 10real) * sc == sc / 10real) by (nonlinear_arith);
        assert(q >= 1real / 100real);
        assert(p >= 1real / 1_000real);
        Double::amounts(product);
        crate::tints::lemma_shrunk(z, p);
        Double::quotient_amount(zenith, product);
        let part = zenith.quotient(product);
        let f = z / p;
        lemma_grow(size_of(f), 1_000real, e);
        let r = part.amount();
        assert(size_of(r - f) <= 1_001real * e);
        crate::amount::near_product(
            latitude_tangent,
            lt,
            0real,
            season_tangent,
            st,
            0real,
            10real,
            10real,
        );
        lemma_size_product(lt, st);
        lemma_grow_both(size_of(lt), 10real, size_of(st), 10real);
        let lean = latitude_tangent.product(season_tangent);
        let d = 1_001real * e;
        lemma_back(z, p, q, r, d);
        let gap = part.difference(lean);
        assert(size_of(r - lt * st) <= 1_101real);
        crate::amount::near_difference(part, r, 0real, lean, lt * st, 101real, 1_101real);
        let w = gap.amount() + lt * st;
        assert(size_of(w - r) <= 1_203real * e);
        assert(w * q - z == (w - r) * q + (r * q - z)) by (nonlinear_arith);
        lemma_size_product(w - r, q);
        lemma_grow_both(size_of(w - r), 1_203real * e, q, 1real);
        crate::light::lemma_few(1_100_000real);
        assert(1_001real * d == 1_002_001real * e);
    }
}

} // verus!
