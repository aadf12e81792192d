//! Lista duplamente encadeada, com endereços estáveis.

use vstd::prelude::*;
use crate::encadeamento::{
    CelulaEncadeada, lema_insere_sem_repeticao, lema_liberar, lema_ligacoes_inserir,
    lema_ligacoes_remover, lema_ocupar, lema_posicao, lema_posicao_unica, lema_remove_sem_repeticao,
    lema_retirar_livre, ligada, livres_fora,
};

verus! {

/// Uma célula da lista dupla: o conteúdo e os endereços das células seguinte e anterior.
struct CelulaDupla<T> {
    conteudo: T,
    proximo: usize,
    anterior: usize,
}

/// Lista duplamente encadeada: cada célula aponta para a seguinte e, exceto a
/// cabeça, para a anterior; a ponta guarda como seguinte o endereço que
/// recebeu ao ser ligada (a cabeça, quando foi colocada no fim). Os endereços das células são índices na arena `celulas`; os das
/// células removidas ficam em `livres` e são reaproveitados.
pub struct ListaDupla<T> {
    n: u32,
    cabeca: usize,
    ponta: usize,
    celulas: Vec<CelulaDupla<T>>,
    livres: Vec<usize>,
    ordem: Ghost<Seq<usize>>,
}

impl<T> View for ListaDupla<T> {
    type V = Seq<T>;

    /// Os conteúdos da lista, da cabeça à ponta.
    closed spec fn view(&self) -> Seq<T> {
        Seq::new(self.ordem@.len(), |i: int| self.celulas@[self.ordem@[i] as int].conteudo)
    }
}

impl<T> CelulaEncadeada for CelulaDupla<T> {
    closed spec fn seguinte_na_arena(&self) -> usize {
        self.proximo
    }
}

/// Cada célula de `ordem`, exceto a primeira, aponta para trás, na arena
/// `celulas`, para a que a precede.
spec fn ligada_atras<T>(celulas: Seq<CelulaDupla<T>>, ordem: Seq<usize>) -> bool {
    forall|i: int| 0 < i < ordem.len() ==> (#[trigger] celulas[ordem[i] as int]).anterior == ordem[i - 1]
}

/// Inserir a célula `a` logo após a posição `k` mantém as ligações para trás,
/// quando `a` aponta para trás para a célula de `k` e a antiga seguinte para `a`.
proof fn lema_atras_inserir<T>(
    antes: Seq<CelulaDupla<T>>,
    depois: Seq<CelulaDupla<T>>,
    ordem: Seq<usize>,
    k: int,
    a: usize,
)
    requires
        ligada_atras(antes, ordem),
        ordem.no_duplicates(),
        0 <= k < ordem.len(),
        !ordem.contains(a),
        forall|i: int| 0 <= i < ordem.len() ==> #[trigger] ordem[i] < antes.len(),
        antes.len() <= depois.len(),
        a < depois.len(),
        depois[a as int].anterior == ordem[k],
        k + 1 < ordem.len() ==> depois[ordem[k + 1] as int].anterior == a,
        forall|j: int| 0 <= j < antes.len() && j != a && (k + 1 < ordem.len() ==> j != ordem[k + 1])
            ==> (#[trigger] depois[j].anterior) == antes[j].anterior,
    ensures
        ligada_atras(depois, ordem.insert(k + 1, a)),
{
    let o2 = ordem.insert(k + 1, a);
    assert forall|i: int| 0 < i < o2.len() implies (#[trigger] depois[o2[i] as int]).anterior == o2[i - 1] by {
        if i <= k {
            assert(o2[i] == ordem[i]);
            assert(o2[i - 1] == ordem[i - 1]);
            if k + 1 < ordem.len() {
                assert(ordem[i] != ordem[k + 1]);
            }
            assert(ordem[i] != a);
            assert(depois[ordem[i] as int].anterior == antes[ordem[i] as int].anterior);
            assert(antes[ordem[i] as int].anterior == ordem[i - 1]);
        } else if i == k + 1 {
            assert(o2[i] == a);
            assert(o2[k] == ordem[k]);
        } else if i == k + 2 {
            assert(o2[i] == ordem[k + 1]);
        } else {
            assert(o2[i] == ordem[i - 1]);
            assert(o2[i - 1] == ordem[i - 2]);
            assert(ordem[i - 1] != ordem[k + 1]);
            assert(ordem[i - 1] != a);
            assert(depois[ordem[i - 1] as int].anterior == antes[ordem[i - 1] as int].anterior);
            assert(antes[ordem[i - 1] as int].anterior == ordem[i - 2]);
        }
    }
}

/// Remover a célula da posição `k + 1`, fazendo a que a seguia apontar para
/// trás para a célula de `k`, mantém as ligações para trás.
proof fn lema_atras_remover<T>(
    antes: Seq<CelulaDupla<T>>,
    depois: Seq<CelulaDupla<T>>,
    ordem: Seq<usize>,
    k: int,
)
    requires
        ligada_atras(antes, ordem),
        ordem.no_duplicates(),
        0 <= k < ordem.len() - 1,
        forall|i: int| 0 <= i < ordem.len() ==> #[trigger] ordem[i] < antes.len(),
        depois.len() == antes.len(),
        k + 2 < ordem.len() ==> depois[ordem[k + 2] as int].anterior == ordem[k],
        forall|j: int| 0 <= j < antes.len() && (k + 2 < ordem.len() ==> j != ordem[k + 2])
            ==> (#[trigger] depois[j].anterior) == antes[j].anterior,
    ensures
        ligada_atras(depois, ordem.remove(k + 1)),
{
    let o2 = ordem.remove(k + 1);
    assert forall|i: int| 0 < i < o2.len() implies (#[trigger] depois[o2[i] as int]).anterior == o2[i - 1] by {
        if i <= k {
            assert(o2[i] == ordem[i]);
            assert(o2[i - 1] == ordem[i - 1]);
            if k + 2 < ordem.len() {
                assert(ordem[i] != ordem[k + 2]);
            }
            assert(depois[ordem[i] as int].anterior == antes[ordem[i] as int].anterior);
            assert(antes[ordem[i] as int].anterior == ordem[i - 1]);
        } else if i == k + 1 {
            assert(o2[i] == ordem[k + 2]);
            assert(o2[k] == ordem[k]);
        } else {
            assert(o2[i] == ordem[i + 1]);
            assert(o2[i - 1] == ordem[i]);
            assert(ordem[i + 1] != ordem[k + 2]);
            assert(depois[ordem[i + 1] as int].anterior == antes[ordem[i + 1] as int].anterior);
            assert(antes[ordem[i + 1] as int].anterior == ordem[i]);
        }
    }
}

impl<T> ListaDupla<T> {
    /// Os endereços das células da lista, da cabeça à ponta.
    pub closed spec fn enderecos(&self) -> Seq<usize> {
        self.ordem@
    }

    /// A posição, na lista, da célula que está no endereço `e`.
    pub open spec fn posicao(&self, e: usize) -> int {
        self.enderecos().index_of(e)
    }

    /// Os endereços de células removidas, à espera de serem reaproveitados; o
    /// último é o primeiro a ser usado de novo.
    pub closed spec fn livres(&self) -> Seq<usize> {
        self.livres@
    }

    /// O endereço guardado como cabeça; numa lista vazia, é o endereço em que
    /// a próxima célula colocada vai ficar.
    pub closed spec fn endereco_cabeca(&self) -> usize {
        self.cabeca
    }

    /// O endereço guardado como ponta; numa lista vazia, coincide com a cabeça.
    pub closed spec fn endereco_ponta(&self) -> usize {
        self.ponta
    }

    /// O endereço guardado na ponta como o da célula seguinte.
    pub closed spec fn endereco_apos_ponta(&self) -> usize {
        self.celulas@[self.ponta as int].proximo
    }

    /// A arena está em ordem: os endereços em uso e os livres são posições
    /// dela, e nenhum endereço livre está em uso nem se repete.
    closed spec fn arena_coerente(&self) -> bool {
        let o = self.ordem@;
        &&& o.no_duplicates()
        &&& forall|i: int| 0 <= i < o.len() ==> #[trigger] o[i] < self.celulas.len()
        &&& forall|i: int| 0 <= i < self.livres@.len() ==> #[trigger] self.livres@[i] < self.celulas.len()
        &&& self.livres@.no_duplicates()
        &&& livres_fora(self.livres@, o)
    }

    /// O endereço que a próxima célula alocada vai ocupar: o último livre, ou
    /// o fim da arena quando não há livres.
    closed spec fn proximo_livre(&self) -> usize {
        if self.livres@.len() > 0 {
            self.livres@.last()
        } else {
            self.celulas.len() as usize
        }
    }

    /// A lista está bem formada: cada célula menos a ponta aponta para a
    /// seguinte, cada uma menos a cabeça para a anterior, a cabeça e a ponta
    /// são a primeira e a última, e `n` conta as células.
    pub closed spec fn bem_formada(&self) -> bool {
        let o = self.ordem@;
        &&& o.len() == self.n
        &&& self.arena_coerente()
        &&& o.len() > 0 ==> self.cabeca == o[0] && self.ponta == o[o.len() - 1]
        &&& o.len() == 0 ==> self.cabeca == self.ponta && self.proximo_livre() == self.cabeca
        &&& ligada(self.celulas@, o)
        &&& ligada_atras(self.celulas@, o)
    }

    /// Numa lista bem formada há um endereço por conteúdo, sem repetições; a
    /// cabeça e a ponta são o primeiro e o último, e coincidem na lista vazia.
    pub proof fn lema_bem_formada(&self)
        requires
            self.bem_formada(),
        ensures
            self.enderecos().len() == self@.len(),
            self.enderecos().no_duplicates(),
            self@.len() > 0 ==> self.endereco_cabeca() == self.enderecos()[0]
                && self.endereco_ponta() == self.enderecos().last(),
            self@.len() == 0 ==> self.endereco_cabeca() == self.endereco_ponta(),
            forall|i: int| 0 <= i < self.livres().len() ==> !self.enderecos().contains(#[trigger] self.livres()[i]),
    {
    }

    /// Guarda `celula` num endereço livre da arena, reaproveitando o último
    /// liberado quando houver, e devolve esse endereço.
    fn alocar(&mut self, celula: CelulaDupla<T>) -> (a: usize)
        requires
            old(self).arena_coerente(),
        ensures
            a == old(self).proximo_livre(),
            old(self).livres@.len() > 0 ==> final(self).livres@ == old(self).livres@.drop_last(),
            old(self).livres@.len() == 0 ==> final(self).livres@ == old(self).livres@,
            final(self).n == old(self).n,
            final(self).cabeca == old(self).cabeca,
            final(self).ponta == old(self).ponta,
            final(self).ordem == old(self).ordem,
            !old(self).ordem@.contains(a),
            a < final(self).celulas.len(),
            old(self).celulas.len() <= final(self).celulas.len(),
            final(self).celulas@[a as int] == celula,
            forall|j: int| 0 <= j < old(self).celulas.len() && j != a
                ==> #[trigger] final(self).celulas@[j] == old(self).celulas@[j],
            forall|i: int| 0 <= i < final(self).livres@.len()
                ==> #[trigger] final(self).livres@[i] < final(self).celulas.len(),
            final(self).livres@.no_duplicates(),
            !final(self).livres@.contains(a),
            livres_fora(final(self).livres@, old(self).ordem@),
    {
        proof {
            if self.livres@.len() > 0 {
                lema_retirar_livre(self.livres@, self.ordem@);
            }
        }
        match self.livres.pop() {
            Some(a) => {
                assert(a == old(self).livres@.last());
                self.celulas[a] = celula;
                a
            },
            None => {
                let a: usize = self.celulas.len();
                self.celulas.push(celula);
                proof {
                    if self.ordem@.contains(a) {
                        lema_posicao(self.ordem@, a);
                    }
                }
                a
            },
        }
    }

    /// Cria uma lista vazia.
    pub fn novo() -> (lista: Self)
        ensures
            lista.bem_formada(),
            lista@ == Seq::<T>::empty(),
            lista.enderecos() == Seq::<usize>::empty(),
            lista.livres() == Seq::<usize>::empty(),
            lista.endereco_cabeca() == lista.endereco_ponta(),
    {
        let lista = ListaDupla {
            n: 0,
            cabeca: 0,
            ponta: 0,
            celulas: Vec::new(),
            livres: Vec::new(),
            ordem: Ghost(Seq::empty()),
        };
        assert(lista@ =~= Seq::<T>::empty());
        lista
    }

    /// Acrescenta `elemento` ao fim da lista, numa célula nova que aponta para
    /// a cabeça e, para trás, para a antiga ponta.
    pub fn colocar(&mut self, elemento: T)
        requires
            old(self).bem_formada(),
            old(self)@.len() < u32::MAX,
        ensures
            final(self).bem_formada(),
            final(self)@ == old(self)@.push(elemento),
            final(self).enderecos() == old(self).enderecos().push(final(self).enderecos().last()),
            !old(self).enderecos().contains(final(self).enderecos().last()),
            final(self).endereco_cabeca() == old(self).endereco_cabeca(),
            final(self).endereco_ponta() == final(self).enderecos().last(),
            final(self).endereco_apos_ponta() == final(self).enderecos()[0],
            old(self).livres().len() > 0 ==> final(self).enderecos().last() == old(self).livres().last()
                && final(self).livres() == old(self).livres().drop_last(),
            old(self).livres().len() == 0 ==> final(self).livres() == old(self).livres(),
    {
        let ghost o = self.ordem@;
        let cabeca: usize = self.cabeca;
        let ponta_atual: usize = self.ponta;
        let a: usize = self.alocar(CelulaDupla { conteudo: elemento, proximo: cabeca, anterior: ponta_atual });
        if self.n == 0 {
            self.cabeca = a;
        } else {
            let ponta: usize = self.ponta;
            self.celulas[ponta].proximo = a;
        }
        self.ponta = a;
        self.n = self.n + 1;
        proof {
            lema_ocupar(self.livres@, o, o.len() as int, a);
            assert(o.insert(o.len() as int, a) =~= o.push(a));
            lema_insere_sem_repeticao(o, o.len() as int, a);
            self.ordem@ = o.push(a);
            let o2 = self.ordem@;
            assert forall|i: int| 0 <= i < o.len() implies #[trigger] o[i] != a by {}
            assert forall|i: int| 0 <= i < o2.len() - 1 implies (#[trigger] self.celulas@[o2[i] as int]).proximo
                == o2[i + 1] by {
                if i < o.len() - 1 {
                    assert(o[i] != o[o.len() - 1]);
                    assert(old(self).celulas@[o[i] as int].proximo == o[i + 1]);
                }
            }
            assert forall|i: int| 0 < i < o2.len() implies (#[trigger] self.celulas@[o2[i] as int]).anterior
                == o2[i - 1] by {
                if i < o.len() {
                    assert(old(self).celulas@[o[i] as int].anterior == o[i - 1]);
                }
            }
            assert(self@ =~= old(self)@.push(elemento)) by {
                assert forall|i: int| 0 <= i < o.len() implies (#[trigger] self.celulas@[o[i] as int]).conteudo
                    == old(self).celulas@[o[i] as int].conteudo by {}
            }
        }
    }

    /// Insere `conteudo` numa célula nova, logo depois da célula do endereço
    /// `endereco`; a nova aponta para onde esta apontava, e a seguinte, se
    /// houver, passa a apontar para trás para a nova.
    pub fn inserir_apos(&mut self, endereco: usize, conteudo: T)
        requires
            old(self).bem_formada(),
            old(self).enderecos().contains(endereco),
            old(self)@.len() < u32::MAX,
        ensures
            final(self).bem_formada(),
            final(self)@ == old(self)@.insert(old(self).posicao(endereco) + 1, conteudo),
            final(self).enderecos() == old(self).enderecos().insert(
                old(self).posicao(endereco) + 1,
                final(self).enderecos()[old(self).posicao(endereco) + 1],
            ),
            !old(self).enderecos().contains(final(self).enderecos()[old(self).posicao(endereco) + 1]),
            final(self).endereco_apos_ponta() == old(self).endereco_apos_ponta(),
            old(self).livres().len() > 0 ==> final(self).enderecos()[old(self).posicao(endereco) + 1]
                == old(self).livres().last() && final(self).livres() == old(self).livres().drop_last(),
            old(self).livres().len() == 0 ==> final(self).livres() == old(self).livres(),
    {
        let ghost o = self.ordem@;
        let ghost k: int = o.index_of(endereco);
        proof {
            lema_posicao(o, endereco);
        }
        let seguinte_atual: usize = self.celulas[endereco].proximo;
        let a: usize = self.alocar(CelulaDupla { conteudo: conteudo, proximo: seguinte_atual, anterior: endereco });
        self.celulas[endereco].proximo = a;
        if endereco == self.ponta {
            self.ponta = a;
        } else {
            self.celulas[seguinte_atual].anterior = a;
        }
        self.n = self.n + 1;
        proof {
            lema_ocupar(self.livres@, o, k + 1, a);
            self.ordem@ = o.insert(k + 1, a);
            lema_ligacoes_inserir(old(self).celulas@, self.celulas@, o, k, a);
            lema_atras_inserir(old(self).celulas@, self.celulas@, o, k, a);
            lema_insere_sem_repeticao(o, k + 1, a);
            assert forall|i: int| 0 <= i < o.len() implies #[trigger] o[i] != a by {}
            assert(self@ =~= old(self)@.insert(k + 1, conteudo)) by {
                assert forall|i: int| 0 <= i < o.len() && i != k implies #[trigger] o[i] != endereco by {}
                assert forall|i: int| 0 <= i < o.len() implies (#[trigger] self.celulas@[o[i] as int]).conteudo
                    == old(self).celulas@[o[i] as int].conteudo by {}
            }
        }
    }

    /// Troca o conteúdo da célula do endereço `endereco` por `conteudo`.
    pub fn alterar(&mut self, endereco: usize, conteudo: T)
        requires
            old(self).bem_formada(),
            old(self).enderecos().contains(endereco),
        ensures
            final(self).bem_formada(),
            final(self)@ == old(self)@.update(old(self).posicao(endereco), conteudo),
            final(self).enderecos() == old(self).enderecos(),
            final(self).livres() == old(self).livres(),
            final(self).endereco_apos_ponta() == old(self).endereco_apos_ponta(),
    {
        let ghost o = self.ordem@;
        let ghost k: int = o.index_of(endereco);
        proof {
            lema_posicao(o, endereco);
        }
        self.celulas[endereco].conteudo = conteudo;
        proof {
            assert(ligada(self.celulas@, o)) by {
                assert forall|i: int| 0 <= i < o.len() - 1 implies (#[trigger] self.celulas@[o[i] as int]).proximo
                    == o[i + 1] by {
                    assert(old(self).celulas@[o[i] as int].proximo == o[i + 1]);
                }
            }
            assert(ligada_atras(self.celulas@, o)) by {
                assert forall|i: int| 0 < i < o.len() implies (#[trigger] self.celulas@[o[i] as int]).anterior
                    == o[i - 1] by {
                    assert(old(self).celulas@[o[i] as int].anterior == o[i - 1]);
                }
            }
            assert(self@ =~= old(self)@.update(k, conteudo)) by {
                assert forall|i: int| 0 <= i < o.len() && i != k implies #[trigger] o[i] != endereco by {}
            }
        }
    }

    /// Remove a célula que segue a do endereço `endereco`, que não pode ser a
    /// ponta, e libera o endereço dela para reuso; a que vinha depois, se
    /// houver, passa a apontar para trás para `endereco`.
    pub fn deletar_apos(&mut self, endereco: usize)
        requires
            old(self).bem_formada(),
            old(self).enderecos().contains(endereco),
            endereco != old(self).enderecos().last(),
        ensures
            final(self).bem_formada(),
            final(self)@ == old(self)@.remove(old(self).posicao(endereco) + 1),
            final(self).enderecos() == old(self).enderecos().remove(old(self).posicao(endereco) + 1),
            final(self).livres() == old(self).livres().push(old(self).enderecos()[old(self).posicao(endereco) + 1]),
            final(self).endereco_apos_ponta() == old(self).endereco_apos_ponta(),
    {
        let ghost o = self.ordem@;
        let ghost k: int = o.index_of(endereco);
        proof {
            lema_posicao(o, endereco);
        }
        let ponteiro_remover: usize = self.celulas[endereco].proximo;
        let depois: usize = self.celulas[ponteiro_remover].proximo;
        self.celulas[endereco].proximo = depois;
        self.n = self.n - 1;
        if ponteiro_remover == self.ponta {
            self.ponta = endereco;
        } else {
            self.celulas[depois].anterior = endereco;
        }
        self.livres.push(ponteiro_remover);
        proof {
            lema_liberar(old(self).livres@, o, k + 1);
            self.ordem@ = o.remove(k + 1);
            lema_ligacoes_remover(old(self).celulas@, self.celulas@, o, k);
            lema_atras_remover(old(self).celulas@, self.celulas@, o, k);
            lema_remove_sem_repeticao(o, k + 1);
            if k + 2 < o.len() {
                assert(o[k] != o[o.len() - 1]);
            }
            assert(self@ =~= old(self)@.remove(k + 1)) by {
                assert forall|i: int| 0 <= i < o.len() implies (#[trigger] self.celulas@[o[i] as int]).conteudo
                    == old(self).celulas@[o[i] as int].conteudo by {}
            }
        }
    }

    /// Remove a cabeça da lista, que não pode estar vazia, e libera o endereço
    /// dela para reuso; a célula seguinte passa a ser a cabeça.
    pub fn deletar_cabeca(&mut self)
        requires
            old(self).bem_formada(),
            old(self)@.len() > 0,
        ensures
            final(self).bem_formada(),
            final(self)@ == old(self)@.drop_first(),
            final(self).enderecos() == old(self).enderecos().drop_first(),
            final(self).livres() == old(self).livres().push(old(self).enderecos()[0]),
            final(self)@.len() > 0 ==> final(self).endereco_apos_ponta() == old(self).endereco_apos_ponta(),
            final(self)@.len() == 0 ==> final(self).endereco_cabeca() == old(self).endereco_cabeca(),
    {
        let ghost o = self.ordem@;
        let cabeca_atual: usize = self.cabeca;
        self.n = self.n - 1;
        if self.n > 0 {
            let nova_cabeca: usize = self.celulas[cabeca_atual].proximo;
            self.cabeca = nova_cabeca;
        }
        self.livres.push(cabeca_atual);
        proof {
            lema_liberar(old(self).livres@, o, 0);
            assert(o.remove(0) =~= o.drop_first());
            self.ordem@ = o.drop_first();
            lema_remove_sem_repeticao(o, 0);
            let o2 = self.ordem@;
            assert(ligada(self.celulas@, o2)) by {
                assert forall|i: int| 0 <= i < o2.len() - 1 implies (#[trigger] self.celulas@[o2[i] as int]).proximo
                    == o2[i + 1] by {
                    assert(o2[i] == o[i + 1]);
                    assert(old(self).celulas@[o[i + 1] as int].proximo == o[i + 2]);
                }
            }
            assert(ligada_atras(self.celulas@, o2)) by {
                assert forall|i: int| 0 < i < o2.len() implies (#[trigger] self.celulas@[o2[i] as int]).anterior
                    == o2[i - 1] by {
                    assert(o2[i] == o[i + 1]);
                    assert(old(self).celulas@[o[i + 1] as int].anterior == o[i]);
                }
            }
            assert(self@ =~= old(self)@.drop_first());
        }
    }

    /// Insere `conteudo` numa célula nova, que passa a ser a cabeça da lista;
    /// a nova aponta para a antiga cabeça, e esta para trás para a nova.
    pub fn inserir_cabeca(&mut self, conteudo: T)
        requires
            old(self).bem_formada(),
            old(self)@.len() < u32::MAX,
        ensures
            final(self).bem_formada(),
            final(self)@ == old(self)@.insert(0, conteudo),
            final(self).enderecos() == old(self).enderecos().insert(0, final(self).enderecos()[0]),
            !old(self).enderecos().contains(final(self).enderecos()[0]),
            old(self)@.len() == 0 ==> final(self).enderecos()[0] == old(self).endereco_cabeca()
                && final(self).endereco_apos_ponta() == final(self).enderecos()[0],
            old(self)@.len() > 0 ==> final(self).endereco_apos_ponta() == old(self).endereco_apos_ponta(),
            old(self).livres().len() > 0 ==> final(self).enderecos()[0] == old(self).livres().last()
                && final(self).livres() == old(self).livres().drop_last(),
            old(self).livres().len() == 0 ==> final(self).livres() == old(self).livres(),
    {
        let ghost o = self.ordem@;
        let cabeca_atual: usize = self.cabeca;
        let a: usize = self.alocar(CelulaDupla { conteudo: conteudo, proximo: cabeca_atual, anterior: cabeca_atual });
        self.celulas[a].anterior = a;
        self.celulas[cabeca_atual].anterior = a;
        self.cabeca = a;
        self.n = self.n + 1;
        proof {
            lema_ocupar(self.livres@, o, 0, a);
            assert forall|i: int| 0 <= i < o.len() implies #[trigger] o[i] != a by {}
            self.ordem@ = o.insert(0, a);
            lema_insere_sem_repeticao(o, 0, a);
            let o2 = self.ordem@;
            assert(ligada(self.celulas@, o2)) by {
                assert forall|i: int| 0 <= i < o2.len() - 1 implies (#[trigger] self.celulas@[o2[i] as int]).proximo
                    == o2[i + 1] by {
                    if i > 0 {
                        assert(o2[i] == o[i - 1]);
                        assert(old(self).celulas@[o[i - 1] as int].proximo == o[i]);
                        assert(o2[i + 1] == o[i]);
                    } else {
                        assert(o2[1] == o[0]);
                    }
                }
            }
            assert(ligada_atras(self.celulas@, o2)) by {
                assert forall|i: int| 0 < i < o2.len() implies (#[trigger] self.celulas@[o2[i] as int]).anterior
                    == o2[i - 1] by {
                    assert(o2[i] == o[i - 1]);
                    if i > 1 {
                        assert(o[i - 1] != o[0]);
                        assert(old(self).celulas@[o[i - 1] as int].anterior == o[i - 2]);
                        assert(o2[i - 1] == o[i - 2]);
                    }
                }
            }
            assert(self@ =~= old(self)@.insert(0, conteudo)) by {
                assert forall|i: int| 0 <= i < o.len() implies (#[trigger] self.celulas@[o[i] as int]).conteudo
                    == old(self).celulas@[o[i] as int].conteudo by {}
            }
        }
    }

    /// Insere `conteudo` numa célula nova, logo antes da célula do endereço `endereco`.
    pub fn inserir_antes(&mut self, endereco: usize, conteudo: T)
        requires
            old(self).bem_formada(),
            old(self).enderecos().contains(endereco),
            old(self)@.len() < u32::MAX,
        ensures
            final(self).bem_formada(),
            final(self)@ == old(self)@.insert(old(self).posicao(endereco), conteudo),
            final(self).enderecos() == old(self).enderecos().insert(
                old(self).posicao(endereco),
                final(self).enderecos()[old(self).posicao(endereco)],
            ),
            !old(self).enderecos().contains(final(self).enderecos()[old(self).posicao(endereco)]),
            old(self).livres().len() > 0 ==> final(self).enderecos()[old(self).posicao(endereco)]
                == old(self).livres().last() && final(self).livres() == old(self).livres().drop_last(),
            old(self).livres().len() == 0 ==> final(self).livres() == old(self).livres(),
    {
        let ghost o = self.ordem@;
        let ghost k: int = o.index_of(endereco);
        proof {
            lema_posicao(o, endereco);
            lema_posicao_unica(o, 0);
        }
        if endereco == self.cabeca {
            self.inserir_cabeca(conteudo);
        } else {
            let anterior: usize = self.celulas[endereco].anterior;
            proof {
                assert(k > 0);
                assert(anterior == o[k - 1]);
                lema_posicao_unica(o, k - 1);
            }
            self.inserir_apos(anterior, conteudo);
        }
    }

    /// Remove a célula do endereço `endereco` e libera o endereço dela para reuso.
    pub fn deletar(&mut self, endereco: usize)
        requires
            old(self).bem_formada(),
            old(self).enderecos().contains(endereco),
        ensures
            final(self).bem_formada(),
            final(self)@ == old(self)@.remove(old(self).posicao(endereco)),
            final(self).enderecos() == old(self).enderecos().remove(old(self).posicao(endereco)),
            final(self)@.len() == 0 ==> final(self).endereco_cabeca() == old(self).endereco_cabeca(),
            final(self).livres() == old(self).livres().push(endereco),
    {
        let ghost o = self.ordem@;
        let ghost k: int = o.index_of(endereco);
        proof {
            lema_posicao(o, endereco);
            lema_posicao_unica(o, 0);
        }
        if endereco == self.cabeca {
            self.deletar_cabeca();
            proof {
                assert(o.drop_first() =~= o.remove(0));
                assert(old(self)@.drop_first() =~= old(self)@.remove(0));
            }
        } else {
            let anterior: usize = self.celulas[endereco].anterior;
            proof {
                assert(k > 0);
                assert(anterior == o[k - 1]);
                assert(o[k - 1] != o[o.len() - 1]);
                lema_posicao_unica(o, k - 1);
            }
            self.deletar_apos(anterior);
        }
    }

    /// Se o endereço `e` é o de uma célula da lista: percorre a lista da
    /// cabeça à ponta.
    pub fn contem(&self, e: usize) -> (r: bool)
        requires
            self.bem_formada(),
        ensures
            r == self.enderecos().contains(e),
    {
        let ghost o = self.ordem@;
        let mut atual: usize = self.cabeca;
        let mut i: u32 = 0;
        while i < self.n
            invariant
                self.bem_formada(),
                o == self.ordem@,
                0 <= i <= o.len(),
                i < o.len() ==> atual == o[i as int],
                forall|j: int| 0 <= j < i ==> #[trigger] o[j] != e,
            decreases o.len() - i,
        {
            if atual == e {
                assert(o[i as int] == e);
                return true;
            }
            if i + 1 < self.n {
                atual = self.celulas[atual].proximo;
            }
            i = i + 1;
        }
        proof {
            if o.contains(e) {
                lema_posicao(o, e);
            }
        }
        false
    }

    /// O endereço da cabeça; numa lista vazia, o mesmo da ponta, que a
    /// próxima célula colocada vai ocupar.
    pub fn cabeca(&self) -> (r: usize)
        requires
            self.bem_formada(),
        ensures
            r == self.endereco_cabeca(),
            self@.len() > 0 ==> r == self.enderecos()[0],
            self@.len() == 0 ==> r == self.endereco_ponta(),
    {
        self.cabeca
    }

    /// O endereço da ponta, a última célula; numa lista vazia, o mesmo da cabeça.
    pub fn ponta(&self) -> (r: usize)
        requires
            self.bem_formada(),
        ensures
            r == self.endereco_ponta(),
            self@.len() > 0 ==> r == self.enderecos().last(),
            self@.len() == 0 ==> r == self.endereco_cabeca(),
    {
        self.ponta
    }

    /// Quantas células a lista tem.
    pub fn n(&self) -> (r: u32)
        requires
            self.bem_formada(),
        ensures
            r == self@.len(),
    {
        self.n
    }
}

impl<T: Copy> ListaDupla<T> {
    /// O conteúdo e o endereço da célula que segue a do endereço `endereco`,
    /// que não pode ser a ponta.
    pub fn proximo(&mut self, endereco: usize) -> (r: (T, usize))
        requires
            old(self).bem_formada(),
            old(self).enderecos().contains(endereco),
            endereco != old(self).enderecos().last(),
        ensures
            *final(self) == *old(self),
            r.0 == old(self)@[old(self).posicao(endereco) + 1],
            r.1 == old(self).enderecos()[old(self).posicao(endereco) + 1],
    {
        self.proximo2(endereco)
    }

    /// O conteúdo e o endereço da célula que segue a do endereço `endereco`,
    /// que não pode ser a ponta.
    pub fn proximo2(&self, endereco: usize) -> (r: (T, usize))
        requires
            self.bem_formada(),
            self.enderecos().contains(endereco),
            endereco != self.enderecos().last(),
        ensures
            r.0 == self@[self.posicao(endereco) + 1],
            r.1 == self.enderecos()[self.posicao(endereco) + 1],
    {
        proof {
            lema_posicao(self.ordem@, endereco);
        }
        let end_prox: usize = self.celulas[endereco].proximo;
        (self.celulas[end_prox].conteudo, end_prox)
    }

    /// O conteúdo da cabeça e o endereço guardado nela como o da seguinte: o
    /// da segunda célula, ou, numa lista de uma célula só, o que a ponta
    /// guarda.
    pub fn ler_cabeca(&self) -> (r: (T, usize))
        requires
            self.bem_formada(),
            self@.len() > 0,
        ensures
            r.0 == self@[0],
            self@.len() > 1 ==> r.1 == self.enderecos()[1],
            self@.len() == 1 ==> r.1 == self.endereco_apos_ponta(),
    {
        let cabeca: usize = self.cabeca;
        assert(self.ordem@[0] == cabeca);
        (self.celulas[cabeca].conteudo, self.celulas[cabeca].proximo)
    }

    /// O conteúdo e o endereço da célula que precede a do endereço `endereco`,
    /// que não pode ser a cabeça.
    pub fn anterior(&mut self, endereco: usize) -> (r: (T, usize))
        requires
            old(self).bem_formada(),
            old(self).enderecos().contains(endereco),
            endereco != old(self).enderecos()[0],
        ensures
            *final(self) == *old(self),
            r.0 == old(self)@[old(self).posicao(endereco) - 1],
            r.1 == old(self).enderecos()[old(self).posicao(endereco) - 1],
    {
        proof {
            lema_posicao(self.ordem@, endereco);
        }
        let end_anterior: usize = self.celulas[endereco].anterior;
        (self.celulas[end_anterior].conteudo, end_anterior)
    }

    /// Um iterador que percorre a lista da cabeça à ponta.
    pub fn into_iter(&self) -> (it: IteradorListaDupla<'_, T>)
        requires
            self.bem_formada(),
        ensures
            it.bem_formado(),
            it.itens() == self@,
            it.vistos() == 0,
    {
        IteradorListaDupla { lista: self, endereco_atual: self.cabeca, contagem: 0 }
    }

    /// Os conteúdos da lista, da cabeça à ponta, na ordem em que o iterador os entrega.
    pub fn elementos(&self) -> (v: Vec<T>)
        requires
            self.bem_formada(),
        ensures
            v@ == self@,
    {
        let mut it = self.into_iter();
        let mut v: Vec<T> = Vec::new();
        loop
            invariant
                it.bem_formado(),
                it.itens() == self@,
                it.vistos() <= self@.len(),
                v@ == self@.take(it.vistos() as int),
            ensures
                v@ == self@,
            decreases self@.len() - it.vistos(),
        {
            match it.next() {
                Some(x) => {
                    v.push(x);
                    assert(self@.take(it.vistos() as int) =~= self@.take(it.vistos() - 1).push(x));
                },
                None => {
                    assert(self@.take(it.vistos() as int) =~= self@);
                    break;
                },
            }
        }
        v
    }
}

/// Iterador sobre os conteúdos de uma `ListaDupla`, da cabeça à ponta.
pub struct IteradorListaDupla<'a, T> {
    lista: &'a ListaDupla<T>,
    endereco_atual: usize,
    contagem: u32,
}

impl<'a, T: Copy> IteradorListaDupla<'a, T> {
    /// O iterador está em ordem: guarda o endereço da última célula entregue
    /// (a cabeça, antes da primeira) e quantas já entregou.
    pub closed spec fn bem_formado(&self) -> bool {
        let o = self.lista.ordem@;
        &&& self.lista.bem_formada()
        &&& self.contagem <= o.len()
        &&& self.contagem == 0 ==> self.endereco_atual == self.lista.cabeca
        &&& self.contagem > 0 ==> self.endereco_atual == o[self.contagem - 1]
    }

    /// Os conteúdos da lista percorrida.
    pub closed spec fn itens(&self) -> Seq<T> {
        self.lista@
    }

    /// Quantos conteúdos o iterador já entregou.
    pub closed spec fn vistos(&self) -> nat {
        self.contagem as nat
    }

    /// Entrega o conteúdo seguinte, ou `None` quando a lista acabou.
    pub fn next(&mut self) -> (r: Option<T>)
        requires
            old(self).bem_formado(),
        ensures
            final(self).bem_formado(),
            final(self).itens() == old(self).itens(),
            old(self).vistos() < old(self).itens().len() ==> r == Some(old(self).itens()[old(self).vistos() as int])
                && final(self).vistos() == old(self).vistos() + 1,
            old(self).vistos() >= old(self).itens().len() ==> r == None::<T>
                && final(self).vistos() == old(self).vistos(),
    {
        if self.contagem == self.lista.n {
            None
        } else if self.contagem == 0 {
            let (conteudo, _proximo_endereco) = self.lista.ler_cabeca();
            self.contagem = self.contagem + 1;
            Some(conteudo)
        } else {
            let ghost o = self.lista.ordem@;
            proof {
                let c = self.contagem - 1;
                assert(o[c as int] != o[o.len() - 1]);
                assert(o.contains(o[c as int]));
                lema_posicao_unica(o, c as int);
            }
            let (conteudo, proximo_endereco) = self.lista.proximo2(self.endereco_atual);
            self.endereco_atual = proximo_endereco;
            self.contagem = self.contagem + 1;
            Some(conteudo)
        }
    }
}

} // verus!
