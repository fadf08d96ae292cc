//! What the checks of the estimators read of a variogram model.

use vstd::prelude::*;

use crate::double::Double;
use crate::error::{invalid, invalid_double, invalid_of, invalid_parameter, GeostatError, Message};
use crate::text::{concat4, decimal, digits};

verus! {

/// Traits of a variogram model in the dimension of the data.
pub struct ModelTraits {
    /// Whether a structure grows without bound, so that the model has no
    /// covariance function.
    pub has_power: bool,
    /// Name of a structure that is no valid covariance in this dimension.
    pub invalid_kind: Option<String>,
}

/// Text that refuses a structure in `dims` dimensions.
pub open spec fn kind_text(kind: Seq<char>, dims: nat) -> Seq<char> {
    kind + " is not a valid covariance in "@ + digits(dims)
        + " dimensions; use Spherical instead for a 3-D-safe bounded structure"@
}

/// Refuses a structure that is no valid covariance in `dims` dimensions.
pub fn invalid_kind(kind: &String, dims: usize) -> (e: GeostatError)
    ensures
        invalid(e, kind_text(kind@, dims as nat)),
{
    GeostatError::InvalidParameter(
        Message::owned(
            concat4(
                kind.as_str(),
                " is not a valid covariance in ",
                decimal(dims).as_str(),
                " dimensions; use Spherical instead for a 3-D-safe bounded structure",
            ),
        ),
    )
}

/// A search radius, where there is one, is positive.
pub open spec fn radius_ok(radius: Option<Double>) -> bool {
    radius matches Some(r) ==> r.positive()
}

/// Refuses a search radius that is not positive.
pub fn check_radius(radius: Option<Double>) -> (r: Result<(), GeostatError>)
    ensures
        r is Ok <==> radius_ok(radius),
        r matches Err(e) ==> invalid_of(
            e,
            "search radius must be positive, got {}"@,
            seq![radius->0],
        ),
{
    if let Some(radius) = radius {
        if !radius.is_positive() {
            return Err(invalid_double("search radius must be positive, got {}", radius));
        }
    }
    Ok(())
}

/// The parameters of a Gaussian simulation are in order.
pub open spec fn gaussian_ok(
    model: ModelTraits,
    n_realizations: usize,
    max_neighbors: usize,
    radius: Option<Double>,
    n_nodes: nat,
) -> bool {
    &&& !model.has_power
    &&& model.invalid_kind is None
    &&& n_realizations > 0
    &&& max_neighbors > 0
    &&& radius_ok(radius)
    &&& n_nodes > 0
}

/// Why they are not: the first check that fails.
pub open spec fn gaussian_refused(
    power_text: Seq<char>,
    model: ModelTraits,
    dims: nat,
    n_realizations: usize,
    max_neighbors: usize,
    radius: Option<Double>,
    e: GeostatError,
) -> bool {
    if model.has_power {
        invalid(e, power_text)
    } else if model.invalid_kind is Some {
        invalid(e, kind_text(model.invalid_kind->0@, dims))
    } else if n_realizations == 0 {
        invalid(e, "n_realizations must be at least 1"@)
    } else if max_neighbors == 0 {
        invalid(e, "max_neighbors must be at least 1"@)
    } else if !radius_ok(radius) {
        invalid_of(e, "search radius must be positive, got {}"@, seq![radius->0])
    } else {
        invalid(e, "no simulation nodes given"@)
    }
}

/// Checks the parameters of a Gaussian simulation; `power_text` refuses a
/// model without a covariance function.
pub fn check_gaussian(
    power_text: &str,
    model: &ModelTraits,
    dims: usize,
    n_realizations: usize,
    max_neighbors: usize,
    radius: Option<Double>,
    n_nodes: usize,
) -> (r: Result<(), GeostatError>)
    ensures
        r is Ok <==> gaussian_ok(*model, n_realizations, max_neighbors, radius, n_nodes as nat),
        r matches Err(e) ==> gaussian_refused(
            power_text@,
            *model,
            dims as nat,
            n_realizations,
            max_neighbors,
            radius,
            e,
        ),
{
    if model.has_power {
        return Err(invalid_parameter(power_text));
    }
    if let Some(kind) = &model.invalid_kind {
        return Err(invalid_kind(kind, dims));
    }
    if n_realizations == 0 {
        return Err(invalid_parameter("n_realizations must be at least 1"));
    }
    if max_neighbors == 0 {
        return Err(invalid_parameter("max_neighbors must be at least 1"));
    }
    match check_radius(radius) {
        Err(e) => {
            return Err(e);
        },
        Ok(_) => {},
    }
    if n_nodes == 0 {
        return Err(invalid_parameter("no simulation nodes given"));
    }
    Ok(())
}

} // verus!
