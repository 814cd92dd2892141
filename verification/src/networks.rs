//! The shapes of the networks: which layer takes how much and gives how much.
use vstd::prelude::*;
use crate::config::NetworkSubConfig;

verus! {

/// The channels that a projection works on.
pub const REDUCED_CHANNELS: usize = 16;

/// The largest side of the board that a projection works on.
pub const POOL_SIZE: usize = 6;

/// A fully connected layer.
#[derive(Clone, Copy, Debug, PartialEq, Eq, Structural)]
pub struct LinearShape {
    pub input: usize,
    pub output: usize,
}

/// A convolution with a square kernel.
#[derive(Clone, Copy, Debug, PartialEq, Eq, Structural)]
pub struct ConvShape {
    pub c_in: usize,
    pub c_out: usize,
    pub kernel: usize,
}

/// A fully connected layer from `input` to `output`.
pub open spec fn linear(input: int, output: int) -> LinearShape {
    LinearShape { input: input as usize, output: output as usize }
}

/// A convolution from `c_in` to `c_out` channels.
pub open spec fn conv(c_in: int, c_out: int, kernel: int) -> ConvShape {
    ConvShape { c_in: c_in as usize, c_out: c_out as usize, kernel: kernel as usize }
}

/// Whether each layer takes what the one before gives, from `input` to `output`.
pub open spec fn chained(layers: Seq<LinearShape>, input: int, output: int) -> bool {
    &&& layers.len() > 0
    &&& layers[0].input == input
    &&& layers[layers.len() - 1].output == output
    &&& forall|i: int| 0 <= i < layers.len() - 1 ==> (#[trigger] layers[i]).output == layers[i
        + 1].input
}

fn linear_shape(input: usize, output: usize) -> (shape: LinearShape)
    ensures
        shape == linear(input as int, output as int),
{
    LinearShape { input, output }
}

fn conv_shape(c_in: usize, c_out: usize, kernel: usize) -> (shape: ConvShape)
    ensures
        shape == conv(c_in as int, c_out as int, kernel as int),
{
    ConvShape { c_in, c_out, kernel }
}

/// The network from an observation to a hidden state.
#[derive(Clone, Copy, Debug, PartialEq, Eq, Structural)]
pub struct RepresentationModelConfig {
    pub hidden_size: usize,
    pub fc_hidden_size: usize,
    pub input_size: usize,
}

/// The layers of a representation.
#[derive(Clone, Copy, Debug, PartialEq, Eq, Structural)]
pub struct RepresentationPlan {
    pub linear1: LinearShape,
    pub linear2: LinearShape,
    pub linear3: LinearShape,
}

impl RepresentationModelConfig {
    pub fn plan(&self) -> (plan: RepresentationPlan)
        ensures
            plan.linear1 == linear(self.input_size as int, self.fc_hidden_size as int),
            plan.linear2 == linear(self.fc_hidden_size as int, self.fc_hidden_size as int),
            plan.linear3 == linear(self.fc_hidden_size as int, self.hidden_size as int),
            chained(
                seq![plan.linear1, plan.linear2, plan.linear3],
                self.input_size as int,
                self.hidden_size as int,
            ),
    {
        RepresentationPlan {
            linear1: linear_shape(self.input_size, self.fc_hidden_size),
            linear2: linear_shape(self.fc_hidden_size, self.fc_hidden_size),
            linear3: linear_shape(self.fc_hidden_size, self.hidden_size),
        }
    }
}

/// The network from a hidden state and an action to the next hidden state and a reward.
#[derive(Clone, Copy, Debug, PartialEq, Eq, Structural)]
pub struct DynamicModelConfig {
    pub hidden_input: usize,
    pub fc_hidden_size: usize,
    pub hidden_output: usize,
}

/// The layers of the dynamics.
#[derive(Clone, Copy, Debug, PartialEq, Eq, Structural)]
pub struct DynamicPlan {
    pub backbone1: LinearShape,
    pub backbone2: LinearShape,
    pub backbone3: LinearShape,
    pub reward_head1: LinearShape,
    pub reward_head2: LinearShape,
    pub hidden_head1: LinearShape,
    pub hidden_head2: LinearShape,
}

impl DynamicModelConfig {
    pub fn plan(&self) -> (plan: DynamicPlan)
        ensures
            ({
                let fc = self.fc_hidden_size as int;
                &&& plan.backbone1 == linear(self.hidden_input as int, fc)
                &&& plan.backbone2 == linear(fc, fc)
                &&& plan.backbone3 == linear(fc, fc)
                &&& plan.reward_head1 == linear(fc, fc)
                &&& plan.reward_head2 == linear(fc, 1)
                &&& plan.hidden_head1 == linear(fc, fc)
                &&& plan.hidden_head2 == linear(fc, self.hidden_output as int)
            }),
            chained(
                seq![
                    plan.backbone1,
                    plan.backbone2,
                    plan.backbone3,
                    plan.reward_head1,
                    plan.reward_head2,
                ],
                self.hidden_input as int,
                1,
            ),
            chained(
                seq![
                    plan.backbone1,
                    plan.backbone2,
                    plan.backbone3,
                    plan.hidden_head1,
                    plan.hidden_head2,
                ],
                self.hidden_input as int,
                self.hidden_output as int,
            ),
    {
        let fc: usize = self.fc_hidden_size;
        DynamicPlan {
            backbone1: linear_shape(self.hidden_input, fc),
            backbone2: linear_shape(fc, fc),
            backbone3: linear_shape(fc, fc),
            reward_head1: linear_shape(fc, fc),
            reward_head2: linear_shape(fc, 1),
            hidden_head1: linear_shape(fc, fc),
            hidden_head2: linear_shape(fc, self.hidden_output),
        }
    }
}

/// The network from a hidden state to a value and a policy.
#[derive(Clone, Copy, Debug, PartialEq, Eq, Structural)]
pub struct PredictionModelConfig {
    pub fc_hidden_size: usize,
    pub hidden_size: usize,
    pub action_space: usize,
}

/// The layers of a prediction.
#[derive(Clone, Copy, Debug, PartialEq, Eq, Structural)]
pub struct PredictionPlan {
    pub backbone1: LinearShape,
    pub backbone2: LinearShape,
    pub value1: LinearShape,
    pub value2: LinearShape,
    pub policy1: LinearShape,
    pub policy2: LinearShape,
}

impl PredictionModelConfig {
    pub fn plan(&self) -> (plan: PredictionPlan)
        ensures
            ({
                let fc = self.fc_hidden_size as int;
                &&& plan.backbone1 == linear(self.hidden_size as int, fc)
                &&& plan.backbone2 == linear(fc, fc)
                &&& plan.value1 == linear(fc, fc)
                &&& plan.value2 == linear(fc, 1)
                &&& plan.policy1 == linear(fc, fc)
                &&& plan.policy2 == linear(fc, self.action_space as int)
            }),
            chained(
                seq![plan.backbone1, plan.backbone2, plan.value1, plan.value2],
                self.hidden_size as int,
                1,
            ),
            chained(
                seq![plan.backbone1, plan.backbone2, plan.policy1, plan.policy2],
                self.hidden_size as int,
                self.action_space as int,
            ),
    {
        let fc: usize = self.fc_hidden_size;
        PredictionPlan {
            backbone1: linear_shape(self.hidden_size, fc),
            backbone2: linear_shape(fc, fc),
            value1: linear_shape(fc, fc),
            value2: linear_shape(fc, 1),
            policy1: linear_shape(fc, fc),
            policy2: linear_shape(fc, self.action_space),
        }
    }
}

/// The three fully connected networks of an agent.
#[derive(Clone, Copy, Debug, PartialEq, Eq, Structural)]
pub struct AgentPlan {
    pub representation: RepresentationModelConfig,
    pub dynamic: DynamicModelConfig,
    pub prediction: PredictionModelConfig,
}

/// The networks of an agent. The dynamics take the action beside the hidden state, as one
/// number for each action.
pub fn agent_plan(
    representation: &NetworkSubConfig,
    dynamic: &NetworkSubConfig,
    prediction: &NetworkSubConfig,
    action_space: usize,
) -> (plan: AgentPlan)
    requires
        dynamic.latent_space_dims + action_space <= usize::MAX,
    ensures
        plan.representation == (RepresentationModelConfig {
            hidden_size: representation.latent_space_dims,
            fc_hidden_size: representation.fc_hidden_size,
            input_size: action_space,
        }),
        plan.dynamic == (DynamicModelConfig {
            hidden_input: (dynamic.latent_space_dims + action_space) as usize,
            fc_hidden_size: dynamic.fc_hidden_size,
            hidden_output: dynamic.latent_space_dims,
        }),
        plan.prediction == (PredictionModelConfig {
            hidden_size: prediction.latent_space_dims,
            fc_hidden_size: prediction.fc_hidden_size,
            action_space,
        }),
{
    AgentPlan {
        representation: RepresentationModelConfig {
            hidden_size: representation.latent_space_dims,
            fc_hidden_size: representation.fc_hidden_size,
            input_size: action_space,
        },
        dynamic: DynamicModelConfig {
            hidden_input: dynamic.latent_space_dims + action_space,
            fc_hidden_size: dynamic.fc_hidden_size,
            hidden_output: dynamic.latent_space_dims,
        },
        prediction: PredictionModelConfig {
            hidden_size: prediction.latent_space_dims,
            fc_hidden_size: prediction.fc_hidden_size,
            action_space,
        },
    }
}

/// The projection of a flat hidden state.
#[derive(Clone, Copy, Debug, PartialEq, Eq, Structural)]
pub struct MlpProjectionConfig {
    pub latent_size: usize,
    pub proj_hidden: usize,
    pub proj_out: usize,
    pub pred_hidden: usize,
}

/// The layers of a projection; each but the last is followed by a norm of its output.
#[derive(Clone, Copy, Debug, PartialEq, Eq, Structural)]
pub struct MlpProjectionPlan {
    pub proj1: LinearShape,
    pub proj2: LinearShape,
    pub proj3: LinearShape,
    pub pred1: LinearShape,
    pub pred2: LinearShape,
}

impl MlpProjectionConfig {
    pub fn plan(&self) -> (plan: MlpProjectionPlan)
        ensures
            plan.proj1 == linear(self.latent_size as int, self.proj_hidden as int),
            plan.proj2 == linear(self.proj_hidden as int, self.proj_hidden as int),
            plan.proj3 == linear(self.proj_hidden as int, self.proj_out as int),
            plan.pred1 == linear(self.proj_out as int, self.pred_hidden as int),
            plan.pred2 == linear(self.pred_hidden as int, self.proj_out as int),
            chained(
                seq![plan.proj1, plan.proj2, plan.proj3],
                self.latent_size as int,
                self.proj_out as int,
            ),
            chained(
                seq![plan.pred1, plan.pred2],
                self.proj_out as int,
                self.proj_out as int,
            ),
    {
        MlpProjectionPlan {
            proj1: linear_shape(self.latent_size, self.proj_hidden),
            proj2: linear_shape(self.proj_hidden, self.proj_hidden),
            proj3: linear_shape(self.proj_hidden, self.proj_out),
            pred1: linear_shape(self.proj_out, self.pred_hidden),
            pred2: linear_shape(self.pred_hidden, self.proj_out),
        }
    }
}

/// The projection of a hidden state on a board.
#[derive(Clone, Copy, Debug, PartialEq, Eq, Structural)]
pub struct ConvProjectionConfig {
    pub channels: usize,
    pub board_height: usize,
    pub board_width: usize,
    pub proj_hidden: usize,
    pub proj_out: usize,
    pub pred_hidden: usize,
}

/// The layers of a projection on a board: fewer channels, a smaller board, and then flat.
#[derive(Clone, Copy, Debug, PartialEq, Eq, Structural)]
pub struct ConvProjectionPlan {
    pub reduce: ConvShape,
    pub pool_height: usize,
    pub pool_width: usize,
    pub proj1: LinearShape,
    pub proj2: LinearShape,
    pub pred1: LinearShape,
    pub pred2: LinearShape,
}

/// A side of the board after pooling: at least one, and no more than the pool's size.
pub open spec fn pooled(side: int) -> int {
    if side < 1 {
        1
    } else if side > POOL_SIZE {
        POOL_SIZE as int
    } else {
        side
    }
}

fn pooled_side(side: usize) -> (p: usize)
    ensures
        p == pooled(side as int),
        1 <= p <= POOL_SIZE,
{
    if side < 1 {
        1
    } else if side > POOL_SIZE {
        POOL_SIZE
    } else {
        side
    }
}

impl ConvProjectionConfig {
    pub fn plan(&self) -> (plan: ConvProjectionPlan)
        ensures
            plan.reduce == conv(self.channels as int, REDUCED_CHANNELS as int, 1),
            plan.pool_height == pooled(self.board_height as int),
            plan.pool_width == pooled(self.board_width as int),
            plan.proj1.input == REDUCED_CHANNELS * pooled(self.board_height as int) * pooled(
                self.board_width as int,
            ),
            plan.proj1.output == self.proj_hidden,
            plan.proj2 == linear(self.proj_hidden as int, self.proj_out as int),
            plan.pred1 == linear(self.proj_out as int, self.pred_hidden as int),
            plan.pred2 == linear(self.pred_hidden as int, self.proj_out as int),
            chained(
                seq![plan.proj1, plan.proj2, plan.pred1, plan.pred2],
                plan.proj1.input as int,
                self.proj_out as int,
            ),
    {
        let pool_height: usize = pooled_side(self.board_height);
        let pool_width: usize = pooled_side(self.board_width);
        assert(16 * pool_height * pool_width <= 16 * 6 * 6) by (nonlinear_arith)
            requires
                0 <= pool_height <= 6,
                0 <= pool_width <= 6,
        ;
        let flat: usize = REDUCED_CHANNELS * pool_height * pool_width;
        ConvProjectionPlan {
            reduce: conv_shape(self.channels, REDUCED_CHANNELS, 1),
            pool_height,
            pool_width,
            proj1: linear_shape(flat, self.proj_hidden),
            proj2: linear_shape(self.proj_hidden, self.proj_out),
            pred1: linear_shape(self.proj_out, self.pred_hidden),
            pred2: linear_shape(self.pred_hidden, self.proj_out),
        }
    }
}

/// The convolutional networks.
#[derive(Clone, Copy, Debug, PartialEq, Eq, Structural)]
pub struct ResNetConfig {
    pub obs_channels: usize,
    pub channels: usize,
    pub n_blocks: usize,
    pub board_height: usize,
    pub board_width: usize,
    pub action_space: usize,
    pub fc_hidden_size: usize,
}

/// The layers of the convolutional networks; each convolution is followed by a norm of
/// its channels, and the blocks keep `channels` channels.
#[derive(Clone, Copy, Debug, PartialEq, Eq, Structural)]
pub struct ResNetPlan {
    pub channels: usize,
    pub n_blocks: usize,
    pub stem: ConvShape,
    pub fuse: ConvShape,
    pub reward_conv: ConvShape,
    pub reward_fc1: LinearShape,
    pub reward_fc2: LinearShape,
    pub policy_conv: ConvShape,
    pub policy_fc: LinearShape,
    pub value_conv: ConvShape,
    pub value_fc1: LinearShape,
    pub value_fc2: LinearShape,
}

impl ResNetConfig {
    /// The number of squares of the board.
    pub open spec fn squares(self) -> int {
        self.board_height * self.board_width
    }

    pub fn plan(&self) -> (plan: ResNetPlan)
        requires
            2 * self.squares() <= usize::MAX,
            self.channels + self.action_space <= usize::MAX,
        ensures
            ({
                let c = self.channels as int;
                let fc = self.fc_hidden_size as int;
                &&& plan.channels == c
                &&& plan.n_blocks == self.n_blocks
                &&& plan.stem == conv(self.obs_channels as int, c, 3)
                &&& plan.fuse == conv(c + self.action_space, c, 3)
                &&& plan.reward_conv == conv(c, 1, 1)
                &&& plan.reward_fc1 == linear(self.squares(), fc)
                &&& plan.reward_fc2 == linear(fc, 1)
                &&& plan.policy_conv == conv(c, 2, 1)
                &&& plan.policy_fc == linear(2 * self.squares(), self.action_space as int)
                &&& plan.value_conv == conv(c, 1, 1)
                &&& plan.value_fc1 == linear(self.squares(), fc)
                &&& plan.value_fc2 == linear(fc, 1)
            }),
            plan.reward_fc1.input == plan.reward_conv.c_out * self.squares(),
            plan.policy_fc.input == plan.policy_conv.c_out * self.squares(),
            plan.value_fc1.input == plan.value_conv.c_out * self.squares(),
            chained(seq![plan.reward_fc1, plan.reward_fc2], self.squares(), 1),
            chained(seq![plan.value_fc1, plan.value_fc2], self.squares(), 1),
    {
        let c: usize = self.channels;
        let fc: usize = self.fc_hidden_size;
        assert(0 <= self.squares()) by (nonlinear_arith)
            requires
                self.squares() == self.board_height * self.board_width,
        ;
        let squares: usize = self.board_height * self.board_width;
        let plan = ResNetPlan {
            channels: c,
            n_blocks: self.n_blocks,
            stem: conv_shape(self.obs_channels, c, 3),
            fuse: conv_shape(c + self.action_space, c, 3),
            reward_conv: conv_shape(c, 1, 1),
            reward_fc1: linear_shape(squares, fc),
            reward_fc2: linear_shape(fc, 1),
            policy_conv: conv_shape(c, 2, 1),
            policy_fc: linear_shape(2 * squares, self.action_space),
            value_conv: conv_shape(c, 1, 1),
            value_fc1: linear_shape(squares, fc),
            value_fc2: linear_shape(fc, 1),
        };
        proof {
            let one = plan.reward_conv.c_out as int;
            let two = plan.policy_conv.c_out as int;
            let n = self.squares();
            assert(one * n == n && two * n == 2 * n) by (nonlinear_arith)
                requires
                    one == 1,
                    two == 2,
            ;
        }
        plan
    }
}

/// A layer takes the first number and gives the second, and a convolution has the kernel that
/// it is made with.
pub proof fn shapes_go_from_the_first_to_the_second(a: usize, b: usize, kernel: usize)
    ensures
        linear(a as int, b as int).input == a,
        linear(a as int, b as int).output == b,
        conv(a as int, b as int, kernel as int).c_in == a,
        conv(a as int, b as int, kernel as int).c_out == b,
        conv(a as int, b as int, kernel as int).kernel == kernel,
{
}

/// Pooling leaves small boards as they are, makes large ones small, and never makes a larger
/// side the smaller one.
pub proof fn pooling_makes_boards_small(side: int, larger: int)
    requires
        side <= larger,
    ensures
        1 <= pooled(side) <= 6,
        1 <= side <= 6 ==> pooled(side) == side,
        pooled(side) <= pooled(larger),
{
}

} // verus!
