//! The integer side of the neural network kernels: the shapes that a
//! layer accepts, and the names of the activation functions.
//!
//! The weights of a layer are a flat buffer of one row for each output,
//! each row holding one weight for each input.

use vstd::prelude::*;
use vstd::string::StringSliceAdditionalSpecFns;
use crate::error::KernelError;

verus! {

/// The function that a layer applies to each of its sums.
#[derive(Clone, Copy, Debug, PartialEq, Eq)]
pub enum ActivationFunction {
    Sigmoid,
    ReLU,
    Tanh,
    LeakyReLU,
}

/// The number of inputs that each output of a layer weighs, for a layer
/// with `num_inputs` inputs, `num_weights` weights and `num_outputs`
/// biases.
///
/// Fails with `EmptyLayer` where there is no input or no output, and with
/// `InvalidWeights` where the weights are not one for each pair of an
/// input and an output.
pub fn layer_features(num_inputs: usize, num_weights: usize, num_outputs: usize) -> (result: Result<
    usize,
    KernelError,
>)
    ensures
        match result {
            Ok(features) => num_inputs >= 1 && num_outputs >= 1 && features == num_inputs
                && num_weights == features * num_outputs,
            Err(e) => if num_inputs == 0 || num_outputs == 0 {
                e == KernelError::EmptyLayer
            } else {
                num_weights != num_inputs * num_outputs && e == KernelError::InvalidWeights
            },
        },
{
    if num_inputs == 0 || num_outputs == 0 {
        return Err(KernelError::EmptyLayer);
    }
    let num_features = num_weights / num_outputs;
    proof {
        assert(num_features * num_outputs <= num_weights) by (nonlinear_arith)
            requires
                num_features == num_weights / num_outputs,
                num_outputs > 0,
        ;
        if num_weights == num_inputs * num_outputs {
            assert((num_inputs * num_outputs) / (num_outputs as int) == num_inputs)
                by (nonlinear_arith)
                requires
                    num_outputs > 0,
            ;
        }
    }
    if num_weights != num_features * num_outputs || num_features != num_inputs {
        return Err(KernelError::InvalidWeights);
    }
    Ok(num_features)
}

/// The number of inputs that each output of a layer weighs, for a layer
/// that is to be trained towards `num_targets` targets.
///
/// Fails as `layer_features` does, and with `TargetsMismatch` where the
/// targets are not as many as the outputs.
pub fn training_features(
    num_inputs: usize,
    num_weights: usize,
    num_outputs: usize,
    num_targets: usize,
) -> (result: Result<usize, KernelError>)
    ensures
        match result {
            Ok(features) => num_inputs >= 1 && num_outputs >= 1 && num_targets == num_outputs
                && features == num_inputs && num_weights == features * num_outputs,
            Err(e) => if num_inputs == 0 || num_outputs == 0 {
                e == KernelError::EmptyLayer
            } else if num_targets != num_outputs {
                e == KernelError::TargetsMismatch
            } else {
                num_weights != num_inputs * num_outputs && e == KernelError::InvalidWeights
            },
        },
{
    if num_inputs == 0 || num_outputs == 0 {
        return Err(KernelError::EmptyLayer);
    }
    if num_targets != num_outputs {
        return Err(KernelError::TargetsMismatch);
    }
    layer_features(num_inputs, num_weights, num_outputs)
}

/// The place of the weight of input `input` for output `output` in the
/// weight buffer of a layer with `features` inputs.
pub fn weight_index(output: usize, input: usize, features: usize, outputs: usize) -> (index: usize)
    requires
        output < outputs,
        input < features,
        features * outputs <= usize::MAX,
    ensures
        index == output * features + input,
        index < features * outputs,
{
    proof {
        assert(output * features + input < features * outputs) by (nonlinear_arith)
            requires
                output < outputs,
                input < features,
        ;
    }
    output * features + input
}

/// The number of layers of a network that is given as one buffer of
/// weights, one of biases and one activation for each layer.
///
/// Fails with `InconsistentLayers` where the three are not equally many.
pub fn layer_count(num_weights: usize, num_biases: usize, num_activations: usize) -> (result:
    Result<usize, KernelError>)
    ensures
        match result {
            Ok(layers) => layers == num_weights && layers == num_biases && layers
                == num_activations,
            Err(e) => (num_biases != num_weights || num_activations != num_weights) && e
                == KernelError::InconsistentLayers,
        },
{
    if num_biases != num_weights || num_activations != num_weights {
        return Err(KernelError::InconsistentLayers);
    }
    Ok(num_weights)
}

/// The number of weights of a layer that is to be initialised with
/// `input_size` inputs and `output_size` outputs.
///
/// Fails with `EmptyLayerSize` where either is zero, and with
/// `SizeOverflow` where the weights cannot be counted.
pub fn weight_count(input_size: usize, output_size: usize) -> (result: Result<usize, KernelError>)
    ensures
        match result {
            Ok(count) => input_size >= 1 && output_size >= 1 && count == input_size * output_size,
            Err(e) => if input_size == 0 || output_size == 0 {
                e == KernelError::EmptyLayerSize
            } else {
                input_size * output_size > usize::MAX && e == KernelError::SizeOverflow
            },
        },
{
    if input_size == 0 || output_size == 0 {
        return Err(KernelError::EmptyLayerSize);
    }
    match input_size.checked_mul(output_size) {
        Some(count) => Ok(count),
        None => Err(KernelError::SizeOverflow),
    }
}

/// Whether two texts are the same.
pub fn same_text(a: &str, b: &str) -> (same: bool)
    ensures
        same == (a@ == b@),
{
    broadcast use vstd::utf8::encode_utf8_decode_utf8;

    let x = a.as_bytes();
    let y = b.as_bytes();
    assert(vstd::utf8::decode_utf8(a.spec_bytes()) == a@);
    assert(vstd::utf8::decode_utf8(b.spec_bytes()) == b@);
    if x.len() != y.len() {
        return false;
    }
    let mut i: usize = 0;
    while i < x.len()
        invariant
            x.len() == y.len(),
            x@ == a.spec_bytes(),
            y@ == b.spec_bytes(),
            i <= x.len(),
            forall|k: int| 0 <= k < i ==> x[k] == y[k],
        decreases x.len() - i,
    {
        if x[i] != y[i] {
            return false;
        }
        i = i + 1;
    }
    assert(x@ =~= y@);
    true
}

/// The activation function that each name stands for.
pub open spec fn activation_named(name: Seq<char>) -> Option<ActivationFunction> {
    if name == "sigmoid"@ {
        Some(ActivationFunction::Sigmoid)
    } else if name == "relu"@ {
        Some(ActivationFunction::ReLU)
    } else if name == "tanh"@ {
        Some(ActivationFunction::Tanh)
    } else if name == "leaky_relu"@ {
        Some(ActivationFunction::LeakyReLU)
    } else {
        None
    }
}

/// The activation function that a name stands for.
///
/// Fails with `InvalidActivation` where the name is none of `sigmoid`,
/// `relu`, `tanh` and `leaky_relu`.
pub fn parse_activation(name: &str) -> (result: Result<ActivationFunction, KernelError>)
    ensures
        match result {
            Ok(activation) => activation_named(name@) == Some(activation),
            Err(e) => activation_named(name@) is None && e == KernelError::InvalidActivation,
        },
{
    if same_text(name, "sigmoid") {
        Ok(ActivationFunction::Sigmoid)
    } else if same_text(name, "relu") {
        Ok(ActivationFunction::ReLU)
    } else if same_text(name, "tanh") {
        Ok(ActivationFunction::Tanh)
    } else if same_text(name, "leaky_relu") {
        Ok(ActivationFunction::LeakyReLU)
    } else {
        Err(KernelError::InvalidActivation)
    }
}

} // verus!
