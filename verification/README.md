# groth16_prover

A Groth16 prover over BN254, with contracts proved by Verus.

`src/` is the library. What its main contracts say:

- `field`, `fp2`, `ec`: the operations are those of the prime fields, of the
  quadratic extension and of the curve groups. The moduli are proved prime, and
  the chord-and-tangent law is proved a commutative group.
- `ntt`, `msm`: transforms evaluate and interpolate polynomials; the bucket
  method computes the multi-scalar sum.
- `zkey`, `artifacts`: which byte strings are accepted, what is read from them,
  and which error each of the others gives. A key that parses has reduced points
  on their curves, and lists its coefficients by ascending constraint.
- `prover`: for a reduced key, the proof is the Groth16 proof of the witness for
  the given blinding scalars. `equation` shows that a proof with a key from a
  setup, of a witness that satisfies the constraints, meets the verification
  equation.
- `pipeline`, `device`, `session`: the same proof from kernel launches, on a
  launcher, over a device's byte buffers, and as a dialogue with a device that
  is driven from outside. A device is right where every launch leaves what it
  has to; `Prover::kernel_check` takes any device, and its results are the
  judgement of `judge` on what that device left.
- `harness`: what a differential run of two provers establishes, and its report.

`tests/` runs the library against arkworks. `app/` is the programs around it:
files, the environment, threads and device drivers.
